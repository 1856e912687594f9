//! The two 8259 interrupt controllers.
//!
//! A PC has a pair of them in cascade, and after a firmware hand-off they deliver
//! on vectors that are the processor's own exceptions: a timer tick would be
//! indistinguishable from a double fault. So before any interrupt may be enabled,
//! the pair is re-initialised onto vectors the architecture does not claim, and
//! every line is masked.
use crate::arch::port::{PortIo, PortOp};
use vstd::prelude::*;

verus! {

/// Command port of the master.
pub const MASTER_COMMAND: u16 = 0x20;

/// Data port of the master: the mask register, and the initialisation words after
/// the first.
pub const MASTER_DATA: u16 = 0x21;

/// Command port of the slave.
pub const SLAVE_COMMAND: u16 = 0xA0;

/// Data port of the slave.
pub const SLAVE_DATA: u16 = 0xA1;

/// First initialisation word: begin, and promise a fourth.
pub const ICW1_INIT: u8 = 0x11;

/// Third word for the master: which line a slave is attached to, as a bit mask.
pub const ICW3_MASTER: u8 = 0b0000_0100;

/// Third word for the slave: the master line it hangs off, as a number.
pub const ICW3_SLAVE: u8 = 2;

/// Fourth word: deliver vector numbers rather than call addresses.
pub const ICW4_8086: u8 = 0x01;

/// Operation word: end of interrupt.
pub const OCW2_EOI: u8 = 0x20;

/// Operation word: the next read of the command port returns what is in service.
pub const OCW3_READ_ISR: u8 = 0x0B;

/// The master line the slave is cascaded onto, fixed by the wiring of every PC.
pub const CASCADE_IRQ: u8 = 2;

/// Number of lines across the pair.
pub const LINES: u8 = 16;

/// The line the master raises when it has an interrupt it cannot identify.
pub const SPURIOUS_MASTER: u8 = 7;

/// The same on the slave.
pub const SPURIOUS_SLAVE: u8 = 15;

/// The accesses that set both mask registers.
pub open spec fn mask_writes(masks: u16) -> Seq<PortOp> {
    seq![
        PortOp::Write { port: MASTER_DATA, value: (masks % 0x100) as u8 },
        PortOp::Write { port: SLAVE_DATA, value: (masks / 0x100) as u8 },
    ]
}

/// The accesses that read both mask registers and find `masks`.
pub open spec fn mask_reads(masks: u16) -> Seq<PortOp> {
    seq![
        PortOp::Read { port: MASTER_DATA, value: (masks % 0x100) as u8 },
        PortOp::Read { port: SLAVE_DATA, value: (masks / 0x100) as u8 },
    ]
}

/// The masks with one line closed.
pub open spec fn closed(masks: u16, irq: u8) -> u16 {
    masks | (1u16 << irq)
}

/// The masks with one line open. Every slave interrupt reaches the processor
/// through the cascade line, so that is opened with it.
pub open spec fn opened(masks: u16, irq: u8) -> u16 {
    let masks = masks & !(1u16 << irq);
    if irq >= 8 {
        masks & !(1u16 << CASCADE_IRQ)
    } else {
        masks
    }
}

/// The accesses that initialise both chips: four words each, in an order that
/// gives them their meaning, with settling time after each.
pub open spec fn remap_sequence(base: u8) -> Seq<PortOp> {
    seq![
        PortOp::Write { port: MASTER_COMMAND, value: ICW1_INIT },
        PortOp::Wait,
        PortOp::Write { port: SLAVE_COMMAND, value: ICW1_INIT },
        PortOp::Wait,
        PortOp::Write { port: MASTER_DATA, value: base },
        PortOp::Wait,
        PortOp::Write { port: SLAVE_DATA, value: (base + 8) as u8 },
        PortOp::Wait,
        PortOp::Write { port: MASTER_DATA, value: ICW3_MASTER },
        PortOp::Wait,
        PortOp::Write { port: SLAVE_DATA, value: ICW3_SLAVE },
        PortOp::Wait,
        PortOp::Write { port: MASTER_DATA, value: ICW4_8086 },
        PortOp::Wait,
        PortOp::Write { port: SLAVE_DATA, value: ICW4_8086 },
        PortOp::Wait,
    ] + mask_writes(0xFFFF)
}

/// Which line of a pair based at `base` delivered `vector`, if any.
pub open spec fn line_of(base: u8, vector: u8) -> Option<u8> {
    if base <= vector < base + LINES {
        Some((vector - base) as u8)
    } else {
        None
    }
}

/// The cascaded pair.
pub struct Pic8259<P: PortIo> {
    /// Access to the ports.
    pub io: P,
    /// Vector the master's first line is delivered on, or 0 before
    /// [`Pic8259::remap`].
    pub base: u8,
}

impl<P: PortIo> Pic8259<P> {
    /// Wrap the port accessor. Nothing is programmed until [`Pic8259::remap`].
    pub fn new(io: P) -> (pic: Self)
        ensures
            pic.io == io,
            pic.base == 0,
    {
        Pic8259 { io, base: 0 }
    }

    /// Vector the master's first line is delivered on. Zero until remapped.
    #[must_use]
    pub fn base(&self) -> (base: u8)
        ensures
            base == self.base,
    {
        self.base
    }

    /// Which vector `irq` will be delivered on.
    #[must_use]
    pub fn vector_for(&self, irq: u8) -> (vector: u8)
        requires
            self.base + irq <= 0xFF,
        ensures
            vector == self.base + irq,
    {
        self.base + irq
    }

    /// Which line delivered `vector`, if it was one of these chips'.
    #[must_use]
    pub fn irq_for(&self, vector: u8) -> (irq: Option<u8>)
        ensures
            irq == line_of(self.base, vector),
    {
        if vector >= self.base && vector - self.base < LINES {
            Some(vector - self.base)
        } else {
            None
        }
    }

    /// Re-initialise both chips onto `base` and the fifteen vectors after it, with
    /// every line masked. A base among the processor's own exceptions, or one that
    /// leaves no room for the lines, is not allowed.
    pub fn remap(&mut self, base: u8)
        requires
            32 <= base <= 255 - LINES,
        ensures
            final(self).base == base,
            final(self).io.log() == old(self).io.log() + remap_sequence(base),
    {
        self.base = base;
        self.io.write(MASTER_COMMAND, ICW1_INIT);
        self.io.wait();
        self.io.write(SLAVE_COMMAND, ICW1_INIT);
        self.io.wait();
        self.io.write(MASTER_DATA, base);
        self.io.wait();
        self.io.write(SLAVE_DATA, base + 8);
        self.io.wait();
        self.io.write(MASTER_DATA, ICW3_MASTER);
        self.io.wait();
        self.io.write(SLAVE_DATA, ICW3_SLAVE);
        self.io.wait();
        self.io.write(MASTER_DATA, ICW4_8086);
        self.io.wait();
        self.io.write(SLAVE_DATA, ICW4_8086);
        self.io.wait();
        self.set_masks(u16::MAX);
        assert(self.io.log() =~= old(self).io.log() + remap_sequence(base));
    }

    /// Set both mask registers at once. A set bit is a masked line.
    pub fn set_masks(&mut self, masks: u16)
        ensures
            final(self).base == old(self).base,
            final(self).io.log() == old(self).io.log() + mask_writes(masks),
    {
        self.io.write(MASTER_DATA, (masks % 0x100) as u8);
        self.io.write(SLAVE_DATA, (masks / 0x100) as u8);
        assert(self.io.log() =~= old(self).io.log() + mask_writes(masks));
    }

    /// Read both mask registers back, which is the only part of the chips' state
    /// that can be.
    pub fn masks(&mut self) -> (masks: u16)
        ensures
            final(self).base == old(self).base,
            final(self).io.log() == old(self).io.log() + mask_reads(masks),
    {
        let low = self.io.read(MASTER_DATA);
        let high = self.io.read(SLAVE_DATA);
        let masks = low as u16 + 0x100 * (high as u16);
        assert(self.io.log() =~= old(self).io.log() + mask_reads(masks));
        masks
    }

    /// Allow `irq` to be delivered, and the cascade line with a line of the slave.
    pub fn unmask(&mut self, irq: u8)
        requires
            irq < LINES,
        ensures
            final(self).base == old(self).base,
            exists|masks: u16|
                final(self).io.log() == old(self).io.log() + #[trigger] mask_reads(masks)
                    + mask_writes(opened(masks, irq)),
    {
        let before = self.masks();
        let mut masks = before & !(1u16 << irq);
        if irq >= 8 {
            masks = masks & !(1u16 << CASCADE_IRQ);
        }
        self.set_masks(masks);
        assert(self.io.log() == old(self).io.log() + mask_reads(before) + mask_writes(
            opened(before, irq),
        ));
    }

    /// Stop `irq` being delivered.
    pub fn mask(&mut self, irq: u8)
        requires
            irq < LINES,
        ensures
            final(self).base == old(self).base,
            exists|masks: u16|
                final(self).io.log() == old(self).io.log() + #[trigger] mask_reads(masks)
                    + mask_writes(closed(masks, irq)),
    {
        let before = self.masks();
        self.set_masks(before | (1u16 << irq));
        assert(self.io.log() == old(self).io.log() + mask_reads(before) + mask_writes(
            closed(before, irq),
        ));
    }

    /// Mask every line. The chips stay remapped: a masked one still emits the
    /// occasional spurious interrupt, and it must land somewhere harmless.
    pub fn mask_all(&mut self)
        ensures
            final(self).base == old(self).base,
            final(self).io.log() == old(self).io.log() + mask_writes(0xFFFF),
    {
        self.set_masks(u16::MAX);
    }

    /// Acknowledge `irq`. An interrupt of the slave needs two acknowledgements,
    /// slave first: the master holds the cascade line in service until it gets its
    /// own.
    pub fn end_of_interrupt(&mut self, irq: u8)
        ensures
            final(self).base == old(self).base,
            final(self).io.log() == old(self).io.log() + eoi_sequence(irq),
    {
        if irq >= 8 {
            self.io.write(SLAVE_COMMAND, OCW2_EOI);
        }
        self.io.write(MASTER_COMMAND, OCW2_EOI);
        assert(self.io.log() =~= old(self).io.log() + eoi_sequence(irq));
    }

    /// Whether an interrupt on `irq` is spurious: the chip raised the line but has
    /// nothing in service behind it. Only the lowest-priority line of each chip
    /// can be.
    pub fn is_spurious(&mut self, irq: u8) -> (spurious: bool)
        ensures
            final(self).base == old(self).base,
            match spurious_port(irq) {
                None => !spurious && final(self).io.log() == old(self).io.log(),
                Some(port) => {
                    let in_service = final(self).io.log().last()->Read_value;
                    &&& final(self).io.log() == old(self).io.log() + service_query(
                        port,
                        in_service,
                    )
                    &&& spurious == (in_service < 0x80)
                },
            },
    {
        let command = if irq == SPURIOUS_MASTER {
            MASTER_COMMAND
        } else if irq == SPURIOUS_SLAVE {
            SLAVE_COMMAND
        } else {
            return false;
        };
        self.io.write(command, OCW3_READ_ISR);
        let in_service = self.io.read(command);
        assert(self.io.log() =~= old(self).io.log() + service_query(command, in_service));
        in_service < 0x80
    }

    /// Acknowledge a spurious interrupt: nothing for the master's line, and the
    /// master only for the slave's, because the master really did see the cascade
    /// line go high.
    pub fn end_of_spurious(&mut self, irq: u8)
        ensures
            final(self).base == old(self).base,
            final(self).io.log() == old(self).io.log() + (if irq == SPURIOUS_SLAVE {
                seq![PortOp::Write { port: MASTER_COMMAND, value: OCW2_EOI }]
            } else {
                Seq::empty()
            }),
    {
        if irq == SPURIOUS_SLAVE {
            self.io.write(MASTER_COMMAND, OCW2_EOI);
        }
        assert(self.io.log() =~= old(self).io.log() + (if irq == SPURIOUS_SLAVE {
            seq![PortOp::Write { port: MASTER_COMMAND, value: OCW2_EOI }]
        } else {
            Seq::empty()
        }));
    }
}

/// The accesses that acknowledge a line.
pub open spec fn eoi_sequence(irq: u8) -> Seq<PortOp> {
    if irq >= 8 {
        seq![
            PortOp::Write { port: SLAVE_COMMAND, value: OCW2_EOI },
            PortOp::Write { port: MASTER_COMMAND, value: OCW2_EOI },
        ]
    } else {
        seq![PortOp::Write { port: MASTER_COMMAND, value: OCW2_EOI }]
    }
}

/// The chip that can raise a line without cause, by its command port.
pub open spec fn spurious_port(irq: u8) -> Option<u16> {
    if irq == SPURIOUS_MASTER {
        Some(MASTER_COMMAND)
    } else if irq == SPURIOUS_SLAVE {
        Some(SLAVE_COMMAND)
    } else {
        None
    }
}

/// The accesses that ask a chip what it has in service.
pub open spec fn service_query(port: u16, in_service: u8) -> Seq<PortOp> {
    seq![
        PortOp::Write { port, value: OCW3_READ_ISR },
        PortOp::Read { port, value: in_service },
    ]
}

/// A remapped pair never delivers on a vector of the processor's own exceptions,
/// and every line is found again from its vector.
pub proof fn law_vectors_and_lines_are_one_fact(base: u8, irq: u8)
    requires
        32 <= base <= 255 - LINES,
        irq < LINES,
    ensures
        32 <= base + irq < 255,
        line_of(base, (base + irq) as u8) == Some(irq),
{
}

/// A vector belongs to a line exactly when it is one of the sixteen from the base
/// on.
pub proof fn law_only_sixteen_vectors_are_lines(base: u8, vector: u8)
    ensures
        line_of(base, vector) is Some <==> base <= vector < base + 16,
{
}

proof fn lemma_bits(masks: u16, irq: u8, line: u8)
    by (bit_vector)
    requires
        irq < 16,
        line < 16,
    ensures
        ((masks | (1u16 << irq)) >> line) % 2 == (if line == irq {
            1
        } else {
            (masks >> line) % 2
        }),
        ((masks & !(1u16 << irq)) >> line) % 2 == (if line == irq {
            0
        } else {
            (masks >> line) % 2
        }),
        ((masks & !(1u16 << irq) & !(1u16 << 2u8)) >> line) % 2 == (if line == irq || line == 2 {
            0
        } else {
            (masks >> line) % 2
        }),
{
}

/// Whether a mask closes a line.
pub open spec fn is_closed(masks: u16, line: u8) -> bool {
    (masks >> line) % 2 == 1
}

/// Masking a line closes it and leaves the others alone; unmasking opens it, and
/// the cascade line with a line of the slave, and leaves the others alone.
pub proof fn law_masking_leaves_other_lines_alone(masks: u16, irq: u8, line: u8)
    requires
        irq < LINES,
        line < LINES,
    ensures
        is_closed(closed(masks, irq), line) == (line == irq || is_closed(masks, line)),
        is_closed(opened(masks, irq), line) == (line != irq && !(irq >= 8 && line == CASCADE_IRQ)
            && is_closed(masks, line)),
{
    lemma_bits(masks, irq, line);
}

/// The two masks are one number: the low byte goes to the master and is read from
/// it, the high byte likewise for the slave.
pub proof fn law_each_chip_has_its_half_of_the_masks(masks: u16)
    ensures
        mask_writes(masks).len() == 2,
        mask_reads(masks).len() == 2,
        mask_writes(masks)[0] is Write && mask_writes(masks)[0]->Write_port == 0x21,
        mask_writes(masks)[1] is Write && mask_writes(masks)[1]->Write_port == 0xA1,
        mask_writes(masks)[0]->Write_value + 0x100 * mask_writes(masks)[1]->Write_value == masks,
        mask_reads(masks)[0] is Read && mask_reads(masks)[0]->Read_port == 0x21,
        mask_reads(masks)[1] is Read && mask_reads(masks)[1]->Read_port == 0xA1,
        mask_reads(masks)[0]->Read_value + 0x100 * mask_reads(masks)[1]->Read_value == masks,
{
}

/// Initialisation tells each chip the same things wherever the pair is put, but for
/// the vector of its first line: the base for the master and eight more for the
/// slave. Each word is given time to settle, and every line ends up masked.
pub proof fn law_only_the_vectors_depend_on_the_base(base: u8, other: u8)
    requires
        base <= 247,
    ensures
        remap_sequence(base).len() == 18,
        remap_sequence(base)[4] == (PortOp::Write { port: 0x21, value: base }),
        remap_sequence(base)[6] == (PortOp::Write { port: 0xA1, value: (base + 8) as u8 }),
        remap_sequence(base)[0] == (PortOp::Write { port: 0x20, value: 0x11 }),
        remap_sequence(base)[2] == (PortOp::Write { port: 0xA0, value: 0x11 }),
        remap_sequence(base)[8] == (PortOp::Write { port: 0x21, value: 4 }),
        remap_sequence(base)[10] == (PortOp::Write { port: 0xA1, value: 2 }),
        remap_sequence(base)[12] == (PortOp::Write { port: 0x21, value: 1 }),
        remap_sequence(base)[14] == (PortOp::Write { port: 0xA1, value: 1 }),
        remap_sequence(base)[16] == (PortOp::Write { port: 0x21, value: 0xFF }),
        remap_sequence(base)[17] == (PortOp::Write { port: 0xA1, value: 0xFF }),
        forall|i: int|
            0 <= i < 16 && i % 2 == 1 ==> #[trigger] remap_sequence(base)[i] == PortOp::Wait,
        forall|i: int|
            0 <= i < 18 && i != 4 && i != 6 ==> #[trigger] remap_sequence(base)[i]
                == remap_sequence(other)[i],
{
}

/// A line that is found for a vector is the one that is delivered there, whatever
/// the base.
pub proof fn law_a_line_is_as_far_from_the_base_as_its_vector(base: u8, vector: u8)
    ensures
        line_of(base, vector) matches Some(irq) ==> base + irq == vector && irq < 16,
        line_of(base, vector) is None ==> vector < base || vector >= base + 16,
{
}

/// Every acknowledgement ends with the master. One of the slave's eight lines is
/// acknowledged to the slave first, and a line of the master to nobody else.
pub proof fn law_the_master_is_acknowledged_last(irq: u8)
    ensures
        eoi_sequence(irq).last() == (PortOp::Write { port: 0x20, value: 0x20 }),
        irq < 8 ==> eoi_sequence(irq).len() == 1,
        irq >= 8 ==> eoi_sequence(irq).len() == 2 && eoi_sequence(irq)[0] == (PortOp::Write {
            port: 0xA0,
            value: 0x20,
        }),
{
}

/// Only the last line of each chip can be raised without cause, and it is that chip
/// which is asked: first told to report what is in service, and then read.
pub proof fn law_only_the_last_lines_can_be_spurious(irq: u8, in_service: u8)
    ensures
        spurious_port(irq) is Some <==> irq == 7 || irq == 15,
        spurious_port(irq) matches Some(port) ==> {
            &&& port == (if irq < 8 {
                0x20u16
            } else {
                0xA0u16
            })
            &&& service_query(port, in_service).len() == 2
            &&& service_query(port, in_service)[0] == (PortOp::Write { port, value: 0x0B })
            &&& service_query(port, in_service)[1] == (PortOp::Read { port, value: in_service })
        },
{
}

/// A line that can be raised without cause is spurious exactly when the chip, asked
/// what it has in service, does not name its last line. Any other line is not, and
/// no chip is asked.
pub proof fn law_a_spurious_line_is_not_in_service<P: PortIo>(
    pic: &mut Pic8259<P>,
    irq: u8,
    spurious: bool,
)
    requires
        call_ensures(Pic8259::<P>::is_spurious, (pic, irq), spurious),
    ensures
        final(pic).base == old(pic).base,
        irq != 7 && irq != 15 ==> !spurious && final(pic).io.log() == old(pic).io.log(),
        irq == 7 || irq == 15 ==> {
            let port: u16 = if irq == 7 {
                0x20
            } else {
                0xA0
            };
            let in_service = final(pic).io.log().last()->Read_value;
            &&& final(pic).io.log() =~= old(pic).io.log().push(
                PortOp::Write { port, value: 0x0B },
            ).push(PortOp::Read { port, value: in_service })
            &&& spurious <==> in_service & 0x80 == 0
        },
{
    let in_service = final(pic).io.log().last()->Read_value;
    assert(in_service < 0x80 <==> in_service & 0x80 == 0) by (bit_vector);
}

/// A spurious interrupt of the slave is acknowledged to the master, and no other to
/// anybody.
pub proof fn law_a_spurious_interrupt_is_the_masters_alone<P: PortIo>(
    pic: &mut Pic8259<P>,
    irq: u8,
)
    requires
        call_ensures(Pic8259::<P>::end_of_spurious, (pic, irq), ()),
    ensures
        irq == 15 ==> final(pic).io.log() =~= old(pic).io.log().push(
            PortOp::Write { port: 0x20, value: 0x20 },
        ),
        irq != 15 ==> final(pic).io.log() =~= old(pic).io.log(),
        final(pic).base == old(pic).base,
{
}

/// A line is delivered on the vector as far from the base as its number, and is found
/// again from it.
pub proof fn law_a_line_is_found_from_its_vector<P: PortIo>(
    pic: Pic8259<P>,
    irq: u8,
    vector: u8,
    found: Option<u8>,
)
    requires
        irq < 16,
        pic.base + irq <= 0xFF,
        call_ensures(Pic8259::<P>::vector_for, (&pic, irq), vector),
        call_ensures(Pic8259::<P>::irq_for, (&pic, vector), found),
    ensures
        vector == pic.base + irq,
        found == Some(irq),
{
}

/// Unmasking a line opens it, and the cascade line with one of the slave. Every other
/// line is written back as it was read.
pub proof fn law_unmasking_opens_one_line<P: PortIo>(
    pic: &mut Pic8259<P>,
    irq: u8,
    line: u8,
)
    requires
        irq < 16,
        line < 16,
        call_ensures(Pic8259::<P>::unmask, (pic, irq), ()),
    ensures
        final(pic).base == old(pic).base,
        exists|before: u16, after: u16|
            {
                &&& final(pic).io.log() == old(pic).io.log() + #[trigger] mask_reads(before)
                    + #[trigger] mask_writes(after)
                &&& is_closed(after, line) == (line != irq && !(line == 2 && irq >= 8)
                    && is_closed(before, line))
            },
{
    let before = choose|masks: u16|
        final(pic).io.log() == old(pic).io.log() + #[trigger] mask_reads(masks) + mask_writes(
            opened(masks, irq),
        );
    law_masking_leaves_other_lines_alone(before, irq, line);
    assert(final(pic).io.log() == old(pic).io.log() + mask_reads(before) + mask_writes(
        opened(before, irq),
    ));
}

/// Masking a line closes it, and every other line is written back as it was read.
pub proof fn law_masking_closes_one_line<P: PortIo>(
    pic: &mut Pic8259<P>,
    irq: u8,
    line: u8,
)
    requires
        irq < 16,
        line < 16,
        call_ensures(Pic8259::<P>::mask, (pic, irq), ()),
    ensures
        final(pic).base == old(pic).base,
        exists|before: u16, after: u16|
            {
                &&& final(pic).io.log() == old(pic).io.log() + #[trigger] mask_reads(before)
                    + #[trigger] mask_writes(after)
                &&& is_closed(after, line) == (line == irq || is_closed(before, line))
            },
{
    let before = choose|masks: u16|
        final(pic).io.log() == old(pic).io.log() + #[trigger] mask_reads(masks) + mask_writes(
            closed(masks, irq),
        );
    law_masking_leaves_other_lines_alone(before, irq, line);
    assert(final(pic).io.log() == old(pic).io.log() + mask_reads(before) + mask_writes(
        closed(before, irq),
    ));
}

} // verus!
