//! The local APIC and the I/O APIC, which replace the 8259s.
//!
//! The local APIC is part of a core: it receives, holds the priority logic and is
//! told when an interrupt is over. The I/O APIC is on the board: it takes a
//! device's line and decides which vector on which core it becomes. The lines of
//! an I/O APIC are global system interrupts, which are not the legacy line numbers;
//! the firmware publishes the mapping.
use crate::arch::mmio::{Mmio32, RegOp};
use vstd::prelude::*;

pub mod lapic_reg;

verus! {

/// Spurious vector register: the software enable.
pub const SPURIOUS_ENABLE: u32 = 0x100;

/// Local vector entry: masked.
pub const LVT_MASKED: u32 = 0x1_0000;

/// The model-specific register that holds the local APIC's base address and its
/// hardware enable.
pub const IA32_APIC_BASE: u32 = 0x1B;

/// That register: the APIC is enabled.
pub const APIC_BASE_ENABLE: u64 = 0x800;

/// That register: this core is the bootstrap processor.
pub const APIC_BASE_BSP: u64 = 0x100;

/// One core's local APIC.
pub struct LocalApic<M: Mmio32> {
    /// Access to the registers.
    pub regs: M,
}

/// The accesses that enable a local APIC: accept every priority, mask what the
/// firmware may have left pointing elsewhere, and set the spurious vector with the
/// enable bit.
pub open spec fn enable_sequence(spurious_vector: u8) -> Seq<RegOp> {
    seq![
        RegOp::Write { offset: lapic_reg::TASK_PRIORITY, value: 0 },
        RegOp::Write { offset: lapic_reg::LVT_TIMER, value: LVT_MASKED },
        RegOp::Write { offset: lapic_reg::LVT_LINT0, value: LVT_MASKED },
        RegOp::Write { offset: lapic_reg::LVT_LINT1, value: LVT_MASKED },
        RegOp::Write {
            offset: lapic_reg::LVT_ERROR,
            value: (LVT_MASKED + spurious_vector) as u32,
        },
        RegOp::Write {
            offset: lapic_reg::SPURIOUS,
            value: (SPURIOUS_ENABLE + spurious_vector) as u32,
        },
    ]
}

/// Whether exactly one register was read between two states of a log, and what it
/// held.
pub open spec fn one_read(before: Seq<RegOp>, after: Seq<RegOp>, offset: usize, value: u32) -> bool {
    after == before.push(RegOp::Read { offset, value })
}

/// What the last access of a log read.
pub open spec fn last_read(log: Seq<RegOp>) -> u32 {
    log.last()->Read_value
}

impl<M: Mmio32> LocalApic<M> {
    /// Wrap the registers. Nothing is programmed until [`LocalApic::enable`].
    pub fn new(regs: M) -> (apic: Self)
        ensures
            apic.regs == regs,
    {
        LocalApic { regs }
    }

    /// This core's APIC id.
    pub fn id(&mut self) -> (id: u8)
        ensures
            ({
                let value = last_read(final(self).regs.log());
                &&& one_read(old(self).regs.log(), final(self).regs.log(), lapic_reg::ID, value)
                &&& id == value / 0x100_0000
            }),
    {
        (self.regs.read(lapic_reg::ID) / 0x100_0000) as u8
    }

    /// The low byte of the version register.
    pub fn version(&mut self) -> (version: u8)
        ensures
            ({
                let value = last_read(final(self).regs.log());
                &&& one_read(
                    old(self).regs.log(),
                    final(self).regs.log(),
                    lapic_reg::VERSION,
                    value,
                )
                &&& version == value % 0x100
            }),
    {
        (self.regs.read(lapic_reg::VERSION) % 0x100) as u8
    }

    /// How many local vector entries this APIC has: one more than the register
    /// says, as far as a byte goes.
    pub fn lvt_entries(&mut self) -> (entries: u8)
        ensures
            ({
                let value = last_read(final(self).regs.log());
                let highest = (value / 0x1_0000) % 0x100;
                &&& one_read(
                    old(self).regs.log(),
                    final(self).regs.log(),
                    lapic_reg::VERSION,
                    value,
                )
                &&& entries == (if highest == 0xFF {
                    0xFF
                } else {
                    highest + 1
                })
            }),
    {
        let highest = ((self.regs.read(lapic_reg::VERSION) / 0x1_0000) % 0x100) as u8;
        highest.saturating_add(1)
    }

    /// Enable the APIC and give it a spurious vector.
    pub fn enable(&mut self, spurious_vector: u8)
        ensures
            final(self).regs.log() == old(self).regs.log() + enable_sequence(spurious_vector),
    {
        self.regs.write(lapic_reg::TASK_PRIORITY, 0);
        self.regs.write(lapic_reg::LVT_TIMER, LVT_MASKED);
        self.regs.write(lapic_reg::LVT_LINT0, LVT_MASKED);
        self.regs.write(lapic_reg::LVT_LINT1, LVT_MASKED);
        self.regs.write(lapic_reg::LVT_ERROR, LVT_MASKED + spurious_vector as u32);
        self.regs.write(lapic_reg::SPURIOUS, SPURIOUS_ENABLE + spurious_vector as u32);
        assert(self.regs.log() =~= old(self).regs.log() + enable_sequence(spurious_vector));
    }

    /// Whether the software enable bit is set, read back from the register.
    pub fn is_enabled(&mut self) -> (enabled: bool)
        ensures
            ({
                let value = last_read(final(self).regs.log());
                &&& one_read(
                    old(self).regs.log(),
                    final(self).regs.log(),
                    lapic_reg::SPURIOUS,
                    value,
                )
                &&& enabled == ((value / SPURIOUS_ENABLE) % 2 == 1)
            }),
    {
        (self.regs.read(lapic_reg::SPURIOUS) / SPURIOUS_ENABLE) % 2 == 1
    }

    /// The vector the APIC raises for a spurious interrupt.
    pub fn spurious_vector(&mut self) -> (vector: u8)
        ensures
            ({
                let value = last_read(final(self).regs.log());
                &&& one_read(
                    old(self).regs.log(),
                    final(self).regs.log(),
                    lapic_reg::SPURIOUS,
                    value,
                )
                &&& vector == value % 0x100
            }),
    {
        (self.regs.read(lapic_reg::SPURIOUS) % 0x100) as u8
    }

    /// Acknowledge the interrupt being handled. There is nothing to name: the APIC
    /// clears its highest-priority bit by itself.
    pub fn end_of_interrupt(&mut self)
        ensures
            final(self).regs.log() == old(self).regs.log().push(
                RegOp::Write { offset: lapic_reg::EOI, value: 0 },
            ),
    {
        self.regs.write(lapic_reg::EOI, 0);
    }
}

/// What enabling leaves in the spurious vector register reads back as enabled,
/// with the vector that was given.
pub proof fn law_enabling_reads_back(spurious_vector: u8)
    ensures
        ({
            let value = enable_sequence(spurious_vector).last()->Write_value;
            &&& enable_sequence(spurious_vector).last()->Write_offset == lapic_reg::SPURIOUS
            &&& (value / SPURIOUS_ENABLE) % 2 == 1
            &&& value % 0x100 == spurious_vector
        }),
{
}

/// Offset of the register-select window.
pub const IOAPIC_SELECT: usize = 0x00;

/// Offset of the data window, which is whichever register was last selected.
pub const IOAPIC_WINDOW: usize = 0x10;

/// Indirect register: this controller's id.
pub const IOAPIC_REG_ID: u32 = 0x00;

/// Indirect register: version, and the highest entry index in bits 16 to 23.
pub const IOAPIC_REG_VERSION: u32 = 0x01;

/// Indirect register: the first redirection entry. Each entry is two registers.
pub const IOAPIC_REG_REDIRECT: u32 = 0x10;

/// How a redirection entry delivers.
#[derive(Clone, Copy, Debug, PartialEq, Eq, Structural)]
pub struct Redirection {
    /// The vector the processor will see.
    pub vector: u8,
    /// APIC id of the core to deliver to.
    pub destination: u8,
    /// Active low rather than active high.
    pub active_low: bool,
    /// Level triggered rather than edge triggered.
    pub level_triggered: bool,
    /// Whether the line is masked.
    pub masked: bool,
}

/// What the two halves of an entry say.
pub open spec fn entry_of(low: u32, high: u32) -> Redirection {
    Redirection {
        vector: (low % 0x100) as u8,
        destination: (high / 0x100_0000) as u8,
        active_low: (low / 0x2000) % 2 == 1,
        level_triggered: (low / 0x8000) % 2 == 1,
        masked: (low / 0x1_0000) % 2 == 1,
    }
}

impl Redirection {
    /// A masked entry, so an unprogrammed line cannot deliver.
    #[must_use]
    pub fn masked() -> (entry: Redirection)
        ensures
            entry == (Redirection {
                vector: 0,
                destination: 0,
                active_low: false,
                level_triggered: false,
                masked: true,
            }),
    {
        Redirection {
            vector: 0,
            destination: 0,
            active_low: false,
            level_triggered: false,
            masked: true,
        }
    }

    /// The low half of the entry.
    pub open spec fn low(self) -> u32 {
        (self.vector + (if self.active_low {
            0x2000int
        } else {
            0
        }) + (if self.level_triggered {
            0x8000int
        } else {
            0
        }) + (if self.masked {
            0x1_0000int
        } else {
            0
        })) as u32
    }

    /// The high half of the entry.
    pub open spec fn high(self) -> u32 {
        (self.destination * 0x100_0000) as u32
    }

    /// The low half of the entry: everything except the destination. Delivery is
    /// of this exact vector to this exact core.
    #[must_use]
    pub fn low_bits(self) -> (bits: u32)
        ensures
            bits == self.low(),
    {
        let mut bits = self.vector as u32;
        if self.active_low {
            bits = bits + 0x2000;
        }
        if self.level_triggered {
            bits = bits + 0x8000;
        }
        if self.masked {
            bits = bits + 0x1_0000;
        }
        bits
    }

    /// The high half: the destination, in the top byte.
    #[must_use]
    pub fn high_bits(self) -> (bits: u32)
        ensures
            bits == self.high(),
    {
        self.destination as u32 * 0x100_0000
    }

    /// Decode an entry from the two halves.
    #[must_use]
    pub fn from_bits(low: u32, high: u32) -> (entry: Redirection)
        ensures
            entry == entry_of(low, high),
    {
        Redirection {
            vector: (low % 0x100) as u8,
            destination: (high / 0x100_0000) as u8,
            active_low: (low / 0x2000) % 2 == 1,
            level_triggered: (low / 0x8000) % 2 == 1,
            masked: (low / 0x1_0000) % 2 == 1,
        }
    }
}

/// An entry survives being split into its two halves, and no delivery mode but the
/// plain one is ever asked for.
pub proof fn law_an_entry_survives_its_halves(entry: Redirection)
    ensures
        entry_of(entry.low(), entry.high()) == entry,
        (entry.low() / 0x100) % 8 == 0,
{
}

/// The low half of an entry with its mask bit set or cleared and everything else,
/// delivery and destination mode included, as it was.
pub open spec fn with_mask(low: u32, masked: bool) -> u32 {
    if masked {
        low | LVT_MASKED
    } else {
        low & !LVT_MASKED
    }
}

proof fn lemma_with_mask(low: u32, i: u32)
    by (bit_vector)
    requires
        i < 32,
    ensures
        ((low | 0x1_0000) >> i) % 2 == (if i == 16 {
            1
        } else {
            (low >> i) % 2
        }),
        ((low & !0x1_0000) >> i) % 2 == (if i == 16 {
            0
        } else {
            (low >> i) % 2
        }),
        (low | 0x1_0000) % 0x100 == low % 0x100,
        (low & !0x1_0000) % 0x100 == low % 0x100,
        ((low | 0x1_0000) / 0x2000) % 2 == (low / 0x2000) % 2,
        ((low & !0x1_0000) / 0x2000) % 2 == (low / 0x2000) % 2,
        ((low | 0x1_0000) / 0x8000) % 2 == (low / 0x8000) % 2,
        ((low & !0x1_0000) / 0x8000) % 2 == (low / 0x8000) % 2,
        ((low | 0x1_0000) / 0x1_0000) % 2 == 1,
        ((low & !0x1_0000) / 0x1_0000) % 2 == 0,
{
}

/// Masking or unmasking an entry changes its mask bit and no other: every other
/// bit of its low half is as it was, and so the entry says what it said but for the
/// mask.
pub proof fn law_masking_an_entry_keeps_the_rest_of_it(low: u32, high: u32, masked: bool, i: u32)
    requires
        i < 32,
    ensures
        (with_mask(low, masked) >> i) % 2 == (if i == 16 {
            if masked {
                1
            } else {
                0
            }
        } else {
            (low >> i) % 2
        }),
        entry_of(with_mask(low, masked), high) == (Redirection { masked, ..entry_of(low, high) }),
{
    lemma_with_mask(low, i);
}

/// What the polarity and trigger flags of a firmware table say: two bits each, and
/// only the explicit encodings are active low and level triggered.
pub open spec fn line_mode(flags: u16) -> (bool, bool) {
    (flags % 4 == 3, (flags / 4) % 4 == 3)
}

/// Polarity and trigger mode, decoded from the flags of a firmware table: whether
/// the line is active low, and whether it is level triggered. Zero means what the
/// bus normally does, which is neither.
#[must_use]
pub fn polarity_and_trigger(flags: u16) -> (mode: (bool, bool))
    ensures
        mode == line_mode(flags),
{
    (flags % 4 == 3, (flags / 4) % 4 == 3)
}

/// The accesses that read an indirect register and find `value`.
pub open spec fn reg_read(index: u32, value: u32) -> Seq<RegOp> {
    seq![
        RegOp::Write { offset: IOAPIC_SELECT, value: index },
        RegOp::Read { offset: IOAPIC_WINDOW, value },
    ]
}

/// The accesses that write an indirect register.
pub open spec fn reg_write(index: u32, value: u32) -> Seq<RegOp> {
    seq![
        RegOp::Write { offset: IOAPIC_SELECT, value: index },
        RegOp::Write { offset: IOAPIC_WINDOW, value },
    ]
}

/// How many entries a controller has, from its version register: one more than the
/// highest index.
pub open spec fn entries_of(version: u32) -> int {
    (version / 0x1_0000) % 0x100 + 1
}

/// Whether a line belongs to a controller with this base and version register.
pub open spec fn covered(gsi_base: u32, version: u32, gsi: u32) -> bool {
    gsi_base <= gsi < gsi_base + entries_of(version)
}

/// The indirect register that holds the low half of entry `index`; the high half
/// is the next one.
pub open spec fn low_reg(index: int) -> u32 {
    (IOAPIC_REG_REDIRECT + 2 * index) as u32
}

/// The accesses that write an entry: the high half first, because the low half
/// holds the mask and must not lift it while the old destination stands.
pub open spec fn entry_write(index: int, low: u32, high: u32) -> Seq<RegOp> {
    reg_write((low_reg(index) + 1) as u32, high) + reg_write(low_reg(index), low)
}

/// The accesses that read an entry.
pub open spec fn entry_read(index: int, low: u32, high: u32) -> Seq<RegOp> {
    reg_read(low_reg(index), low) + reg_read((low_reg(index) + 1) as u32, high)
}

/// The accesses that mask the first `n` entries.
pub open spec fn mask_sequence(n: nat) -> Seq<RegOp>
    decreases n,
{
    if n == 0 {
        Seq::empty()
    } else {
        mask_sequence((n - 1) as nat) + entry_write(n - 1, LVT_MASKED, 0)
    }
}

/// One I/O APIC.
pub struct IoApic<M: Mmio32> {
    /// Access to the registers.
    pub regs: M,
    /// The first global system interrupt this controller covers.
    pub gsi_base: u32,
}

impl<M: Mmio32> IoApic<M> {
    /// Wrap the registers of a controller whose first line is `gsi_base`.
    pub fn new(regs: M, gsi_base: u32) -> (apic: Self)
        ensures
            apic.regs == regs,
            apic.gsi_base == gsi_base,
    {
        IoApic { regs, gsi_base }
    }

    /// The first line this controller covers.
    #[must_use]
    pub fn gsi_base(&self) -> (base: u32)
        ensures
            base == self.gsi_base,
    {
        self.gsi_base
    }

    /// Read one indirect register.
    fn read_reg(&mut self, index: u32) -> (value: u32)
        ensures
            final(self).gsi_base == old(self).gsi_base,
            final(self).regs.log() == old(self).regs.log() + reg_read(index, value),
    {
        self.regs.write(IOAPIC_SELECT, index);
        let value = self.regs.read(IOAPIC_WINDOW);
        assert(self.regs.log() =~= old(self).regs.log() + reg_read(index, value));
        value
    }

    /// Write one indirect register.
    fn write_reg(&mut self, index: u32, value: u32)
        ensures
            final(self).gsi_base == old(self).gsi_base,
            final(self).regs.log() == old(self).regs.log() + reg_write(index, value),
    {
        self.regs.write(IOAPIC_SELECT, index);
        self.regs.write(IOAPIC_WINDOW, value);
        assert(self.regs.log() =~= old(self).regs.log() + reg_write(index, value));
    }

    /// This controller's id.
    pub fn id(&mut self) -> (id: u8)
        ensures
            final(self).gsi_base == old(self).gsi_base,
            ({
                let value = last_read(final(self).regs.log());
                &&& final(self).regs.log() == old(self).regs.log() + reg_read(
                    IOAPIC_REG_ID,
                    value,
                )
                &&& id == (value / 0x100_0000) % 0x10
            }),
    {
        let value = self.read_reg(IOAPIC_REG_ID);
        ((value / 0x100_0000) % 0x10) as u8
    }

    /// The low byte of the version register.
    pub fn version(&mut self) -> (version: u8)
        ensures
            final(self).gsi_base == old(self).gsi_base,
            ({
                let value = last_read(final(self).regs.log());
                &&& final(self).regs.log() == old(self).regs.log() + reg_read(
                    IOAPIC_REG_VERSION,
                    value,
                )
                &&& version == value % 0x100
            }),
    {
        let value = self.read_reg(IOAPIC_REG_VERSION);
        (value % 0x100) as u8
    }

    /// How many redirection entries this controller has. Read rather than assumed:
    /// a machine can have several of different sizes.
    pub fn entry_count(&mut self) -> (count: u32)
        ensures
            final(self).gsi_base == old(self).gsi_base,
            1 <= count <= 0x100,
            ({
                let value = last_read(final(self).regs.log());
                &&& final(self).regs.log() == old(self).regs.log() + reg_read(
                    IOAPIC_REG_VERSION,
                    value,
                )
                &&& count == entries_of(value)
            }),
    {
        let value = self.read_reg(IOAPIC_REG_VERSION);
        (value / 0x1_0000) % 0x100 + 1
    }

    /// Whether `gsi` belongs to this controller.
    pub fn covers(&mut self, gsi: u32) -> (inside: bool)
        ensures
            final(self).gsi_base == old(self).gsi_base,
            ({
                let version = last_read(final(self).regs.log());
                &&& final(self).regs.log() == old(self).regs.log() + reg_read(
                    IOAPIC_REG_VERSION,
                    version,
                )
                &&& inside == covered(old(self).gsi_base, version, gsi)
            }),
    {
        let count = self.entry_count();
        gsi >= self.gsi_base && gsi - self.gsi_base < count
    }

    /// The indirect registers of `gsi`'s entry.
    fn entry_regs(&self, gsi: u32) -> (regs: (u32, u32))
        requires
            self.gsi_base <= gsi < self.gsi_base + 0x100,
        ensures
            regs.0 == low_reg(gsi - self.gsi_base),
            regs.1 == regs.0 + 1,
    {
        let low = IOAPIC_REG_REDIRECT + (gsi - self.gsi_base) * 2;
        (low, low + 1)
    }

    /// Program `gsi`'s entry. Nothing is programmed and `false` is returned if
    /// this controller does not cover it.
    pub fn set_redirection(&mut self, gsi: u32, entry: Redirection) -> (done: bool)
        ensures
            final(self).gsi_base == old(self).gsi_base,
            programs(
                old(self).regs.log(),
                final(self).regs.log(),
                old(self).gsi_base,
                gsi,
                entry,
                done,
            ),
    {
        let ghost before = self.regs.log();
        let inside = self.covers(gsi);
        let ghost version = last_read(self.regs.log());
        if !inside {
            assert(self.regs.log() =~= before + reg_read(IOAPIC_REG_VERSION, version)
                + Seq::empty());
            return false;
        }
        let (low, high) = self.entry_regs(gsi);
        self.write_reg(high, entry.high_bits());
        self.write_reg(low, entry.low_bits());
        assert(self.regs.log() =~= before + reg_read(IOAPIC_REG_VERSION, version) + entry_write(
            gsi - self.gsi_base,
            entry.low(),
            entry.high(),
        ));
        true
    }

    /// Read the two halves of `gsi`'s entry, if this controller covers it.
    fn halves(&mut self, gsi: u32) -> (halves: Option<(u32, u32)>)
        ensures
            final(self).gsi_base == old(self).gsi_base,
            finds(
                old(self).regs.log(),
                final(self).regs.log(),
                old(self).gsi_base,
                gsi,
                halves,
            ),
    {
        let ghost before = self.regs.log();
        let inside = self.covers(gsi);
        let ghost version = last_read(self.regs.log());
        if !inside {
            assert(self.regs.log() =~= before + lookup(self.gsi_base, gsi, version, 0, 0));
            return None;
        }
        let (low_reg, high_reg) = self.entry_regs(gsi);
        let low = self.read_reg(low_reg);
        let high = self.read_reg(high_reg);
        assert(self.regs.log() =~= before + lookup(self.gsi_base, gsi, version, low, high));
        Some((low, high))
    }

    /// Read `gsi`'s entry back, if this controller covers it.
    pub fn redirection(&mut self, gsi: u32) -> (entry: Option<Redirection>)
        ensures
            final(self).gsi_base == old(self).gsi_base,
            reads(
                old(self).regs.log(),
                final(self).regs.log(),
                old(self).gsi_base,
                gsi,
                entry,
            ),
    {
        let halves = self.halves(gsi);
        match halves {
            None => None,
            Some((low, high)) => Some(Redirection::from_bits(low, high)),
        }
    }

    /// Mask or unmask `gsi` without disturbing the rest of its entry. Nothing is
    /// changed and `false` is returned if this controller does not cover it.
    pub fn set_masked(&mut self, gsi: u32, masked: bool) -> (done: bool)
        ensures
            final(self).gsi_base == old(self).gsi_base,
            masks(
                old(self).regs.log(),
                final(self).regs.log(),
                old(self).gsi_base,
                gsi,
                masked,
                done,
            ),
    {
        match self.halves(gsi) {
            None => {
                assert(self.regs.log() =~= self.regs.log() + Seq::empty());
                false
            },
            Some((low, _)) => {
                let (reg, _) = self.entry_regs(gsi);
                let value = if masked {
                    low | LVT_MASKED
                } else {
                    low & !LVT_MASKED
                };
                self.write_reg(reg, value);
                true
            },
        }
    }

    /// Mask every entry. What the firmware leaves behind is not knowable.
    pub fn mask_all(&mut self)
        ensures
            final(self).gsi_base == old(self).gsi_base,
            exists|version: u32|
                final(self).regs.log() == old(self).regs.log() + #[trigger] reg_read(
                    IOAPIC_REG_VERSION,
                    version,
                ) + mask_sequence(entries_of(version) as nat),
    {
        let ghost before = self.regs.log();
        let count = self.entry_count();
        let ghost version = last_read(self.regs.log());
        let ghost start = self.regs.log();
        let mut index: u32 = 0;
        assert(start =~= start + mask_sequence(0));
        while index < count
            invariant
                index <= count <= 0x100,
                self.gsi_base == old(self).gsi_base,
                self.regs.log() == start + mask_sequence(index as nat),
            decreases count - index,
        {
            let low = IOAPIC_REG_REDIRECT + index * 2;
            let ghost here = self.regs.log();
            self.write_reg(low + 1, 0);
            self.write_reg(low, Redirection::masked().low_bits());
            assert(self.regs.log() =~= here + entry_write(index as int, LVT_MASKED, 0));
            assert(self.regs.log() =~= start + mask_sequence((index + 1) as nat));
            index = index + 1;
        }
        assert(self.regs.log() == before + reg_read(IOAPIC_REG_VERSION, version) + mask_sequence(
            entries_of(version) as nat,
        ));
    }
}

/// The accesses that look an entry up: whether the controller covers it, and then
/// its two halves.
pub open spec fn lookup(gsi_base: u32, gsi: u32, version: u32, low: u32, high: u32) -> Seq<RegOp> {
    reg_read(IOAPIC_REG_VERSION, version) + (if covered(gsi_base, version, gsi) {
        entry_read(gsi - gsi_base, low, high)
    } else {
        Seq::empty()
    })
}

/// Whether the accesses between two logs look an entry up and find these halves,
/// or find that the controller does not cover it.
pub open spec fn finds(
    before: Seq<RegOp>,
    after: Seq<RegOp>,
    gsi_base: u32,
    gsi: u32,
    halves: Option<(u32, u32)>,
) -> bool {
    exists|version: u32, low: u32, high: u32|
        after == before + #[trigger] lookup(gsi_base, gsi, version, low, high) && halves == (
        if covered(gsi_base, version, gsi) {
            Some((low, high))
        } else {
            None
        })
}

/// Whether the accesses between two logs read an entry back as `entry`, or find
/// that the controller does not cover it.
pub open spec fn reads(
    before: Seq<RegOp>,
    after: Seq<RegOp>,
    gsi_base: u32,
    gsi: u32,
    entry: Option<Redirection>,
) -> bool {
    exists|version: u32, low: u32, high: u32|
        after == before + #[trigger] lookup(gsi_base, gsi, version, low, high) && entry == (
        if covered(gsi_base, version, gsi) {
            Some(entry_of(low, high))
        } else {
            None
        })
}

/// Whether the accesses between two logs program an entry, which they do exactly
/// when the controller covers it.
pub open spec fn programs(
    before: Seq<RegOp>,
    after: Seq<RegOp>,
    gsi_base: u32,
    gsi: u32,
    entry: Redirection,
    done: bool,
) -> bool {
    exists|version: u32|
        after == before + #[trigger] reg_read(IOAPIC_REG_VERSION, version) + (if done {
            entry_write(gsi - gsi_base, entry.low(), entry.high())
        } else {
            Seq::empty()
        }) && done == covered(gsi_base, version, gsi)
}

/// Whether the accesses between two logs mask or unmask an entry: its low half is
/// written as it was read, with its mask bit alone changed. They do so exactly when
/// the controller covers it.
pub open spec fn masks(
    before: Seq<RegOp>,
    after: Seq<RegOp>,
    gsi_base: u32,
    gsi: u32,
    masked: bool,
    done: bool,
) -> bool {
    exists|version: u32, low: u32, high: u32|
        after == before + #[trigger] lookup(gsi_base, gsi, version, low, high) + (if done {
            reg_write(low_reg(gsi - gsi_base), with_mask(low, masked))
        } else {
            Seq::empty()
        }) && done == covered(gsi_base, version, gsi)
}

/// Which indirect register is selected after some accesses, if any has been.
pub open spec fn selected(log: Seq<RegOp>) -> Option<u32>
    decreases log.len(),
{
    if log.len() == 0 {
        None
    } else {
        match log.last() {
            RegOp::Write { offset, value } => if offset == IOAPIC_SELECT {
                Some(value)
            } else {
                selected(log.drop_last())
            },
            _ => selected(log.drop_last()),
        }
    }
}

/// What an indirect register holds after some accesses: what was last written to
/// it, or else what it held before all of them.
pub open spec fn held(initial: spec_fn(u32) -> u32, log: Seq<RegOp>, index: u32) -> u32
    decreases log.len(),
{
    if log.len() == 0 {
        initial(index)
    } else {
        match log.last() {
            RegOp::Write { offset, value } => if offset == IOAPIC_WINDOW && selected(
                log.drop_last(),
            ) == Some(index) {
                value
            } else {
                held(initial, log.drop_last(), index)
            },
            _ => held(initial, log.drop_last(), index),
        }
    }
}

/// Whether the registers keep what is written: every read of the window gives what
/// the selected register holds.
pub open spec fn keeps(initial: spec_fn(u32) -> u32, log: Seq<RegOp>) -> bool
    decreases log.len(),
{
    log.len() > 0 ==> {
        let before = log.drop_last();
        &&& keeps(initial, before)
        &&& log.last() matches RegOp::Read { offset, value } ==> offset == IOAPIC_WINDOW ==> (
        selected(before) matches Some(index) ==> value == held(initial, before, index))
    }
}

/// Reading a register that keeps what is written gives what it holds, and changes
/// nothing.
proof fn lemma_reg_read(initial: spec_fn(u32) -> u32, log: Seq<RegOp>, index: u32, value: u32)
    ensures
        keeps(initial, log + reg_read(index, value)) ==> keeps(initial, log) && value == held(
            initial,
            log,
            index,
        ),
        forall|j: u32|
            held(initial, log + reg_read(index, value), j) == #[trigger] held(initial, log, j),
{
    let after = log + reg_read(index, value);
    let middle = log.push(RegOp::Write { offset: IOAPIC_SELECT, value: index });
    assert(after.drop_last() =~= middle);
    assert(middle.drop_last() =~= log);
    assert(after.last() == RegOp::Read { offset: IOAPIC_WINDOW, value });
    assert(selected(middle) == Some(index));
    assert(keeps(initial, middle) ==> keeps(initial, log));
    assert forall|j: u32| held(initial, after, j) == #[trigger] held(initial, log, j) by {
        assert(held(initial, after, j) == held(initial, middle, j));
    }
    assert(held(initial, middle, index) == held(initial, log, index));
}

/// Writing a register changes what it holds, and nothing else.
proof fn lemma_reg_write(initial: spec_fn(u32) -> u32, log: Seq<RegOp>, index: u32, value: u32)
    ensures
        keeps(initial, log + reg_write(index, value)) ==> keeps(initial, log),
        forall|j: u32|
            held(initial, log + reg_write(index, value), j) == (if j == index {
                value
            } else {
                #[trigger] held(initial, log, j)
            }),
{
    let after = log + reg_write(index, value);
    let middle = log.push(RegOp::Write { offset: IOAPIC_SELECT, value: index });
    assert(after.drop_last() =~= middle);
    assert(middle.drop_last() =~= log);
    assert(after.last() == RegOp::Write { offset: IOAPIC_WINDOW, value });
    assert(selected(middle) == Some(index));
    assert(keeps(initial, middle) ==> keeps(initial, log));
    assert forall|j: u32|
        held(initial, after, j) == (if j == index {
            value
        } else {
            #[trigger] held(initial, log, j)
        }) by {
        assert(held(initial, middle, j) == held(initial, log, j));
    }
}

/// The entry that the registers hold for a line.
pub open spec fn held_entry(
    initial: spec_fn(u32) -> u32,
    log: Seq<RegOp>,
    gsi_base: u32,
    gsi: u32,
) -> Redirection {
    let low = low_reg(gsi - gsi_base);
    entry_of(held(initial, log, low), held(initial, log, (low + 1) as u32))
}

/// Looking an entry up in registers that keep what is written finds what they
/// hold, and changes nothing.
proof fn lemma_lookup(
    initial: spec_fn(u32) -> u32,
    log: Seq<RegOp>,
    gsi_base: u32,
    gsi: u32,
    version: u32,
    low: u32,
    high: u32,
)
    ensures
        keeps(initial, log + lookup(gsi_base, gsi, version, low, high)) ==> {
            &&& keeps(initial, log)
            &&& version == held(initial, log, IOAPIC_REG_VERSION)
            &&& covered(gsi_base, version, gsi) ==> low == held(
                initial,
                log,
                low_reg(gsi - gsi_base),
            ) && high == held(initial, log, (low_reg(gsi - gsi_base) + 1) as u32)
        },
        forall|j: u32|
            held(initial, log + lookup(gsi_base, gsi, version, low, high), j) == #[trigger] held(
                initial,
                log,
                j,
            ),
{
    let reg = low_reg(gsi - gsi_base);
    let first = log + reg_read(IOAPIC_REG_VERSION, version);
    lemma_reg_read(initial, log, IOAPIC_REG_VERSION, version);
    if covered(gsi_base, version, gsi) {
        let second = first + reg_read(reg, low);
        let third = second + reg_read((reg + 1) as u32, high);
        lemma_reg_read(initial, first, reg, low);
        lemma_reg_read(initial, second, (reg + 1) as u32, high);
        assert(log + lookup(gsi_base, gsi, version, low, high) =~= third);
        assert(held(initial, first, reg) == held(initial, log, reg));
        assert(held(initial, second, (reg + 1) as u32) == held(initial, first, (reg + 1) as u32));
        assert(held(initial, first, (reg + 1) as u32) == held(initial, log, (reg + 1) as u32));
        assert forall|j: u32| held(initial, third, j) == #[trigger] held(initial, log, j) by {
            assert(held(initial, first, j) == held(initial, log, j));
            assert(held(initial, second, j) == held(initial, first, j));
        }
    } else {
        assert(log + lookup(gsi_base, gsi, version, low, high) =~= first);
    }
}

/// Reading an entry back gives what the registers hold.
pub proof fn law_an_entry_is_read_as_it_is_held(
    initial: spec_fn(u32) -> u32,
    before: Seq<RegOp>,
    after: Seq<RegOp>,
    gsi_base: u32,
    gsi: u32,
    entry: Option<Redirection>,
)
    requires
        keeps(initial, after),
        reads(before, after, gsi_base, gsi, entry),
    ensures
        keeps(initial, before),
        entry == (if covered(gsi_base, held(initial, before, IOAPIC_REG_VERSION), gsi) {
            Some(held_entry(initial, before, gsi_base, gsi))
        } else {
            None
        }),
        forall|j: u32| held(initial, after, j) == #[trigger] held(initial, before, j),
{
    let (version, low, high) = choose|version: u32, low: u32, high: u32|
        after == before + #[trigger] lookup(gsi_base, gsi, version, low, high) && entry == (
        if covered(gsi_base, version, gsi) {
            Some(entry_of(low, high))
        } else {
            None
        });
    lemma_lookup(initial, before, gsi_base, gsi, version, low, high);
}

/// Programming an entry makes the registers hold it, and changes nothing else that
/// they hold.
pub proof fn law_programming_changes_one_entry(
    initial: spec_fn(u32) -> u32,
    before: Seq<RegOp>,
    after: Seq<RegOp>,
    gsi_base: u32,
    gsi: u32,
    entry: Redirection,
    other: u32,
)
    requires
        keeps(initial, after),
        programs(before, after, gsi_base, gsi, entry, true),
    ensures
        keeps(initial, before),
        covered(gsi_base, held(initial, before, IOAPIC_REG_VERSION), gsi),
        held_entry(initial, after, gsi_base, gsi) == entry,
        forall|j: u32|
            j != low_reg(gsi - gsi_base) && j != low_reg(gsi - gsi_base) + 1 ==> #[trigger] held(
                initial,
                after,
                j,
            ) == held(initial, before, j),
        other != gsi && covered(gsi_base, held(initial, before, IOAPIC_REG_VERSION), other)
            ==> held_entry(initial, after, gsi_base, other) == held_entry(
            initial,
            before,
            gsi_base,
            other,
        ),
{
    let version = choose|version: u32|
        after == before + #[trigger] reg_read(IOAPIC_REG_VERSION, version) + entry_write(
            gsi - gsi_base,
            entry.low(),
            entry.high(),
        ) && covered(gsi_base, version, gsi);
    let reg = low_reg(gsi - gsi_base);
    let first = before + reg_read(IOAPIC_REG_VERSION, version);
    let second = first + reg_write((reg + 1) as u32, entry.high());
    let third = second + reg_write(reg, entry.low());
    assert(after =~= third);
    lemma_reg_read(initial, before, IOAPIC_REG_VERSION, version);
    lemma_reg_write(initial, first, (reg + 1) as u32, entry.high());
    lemma_reg_write(initial, second, reg, entry.low());
    assert forall|j: u32| j != reg && j != reg + 1 implies #[trigger] held(initial, after, j)
        == held(initial, before, j) by {
        assert(held(initial, first, j) == held(initial, before, j));
        assert(held(initial, second, j) == held(initial, first, j));
        assert(held(initial, third, j) == held(initial, second, j));
    }
    assert(held(initial, third, (reg + 1) as u32) == held(initial, second, (reg + 1) as u32));
    law_an_entry_survives_its_halves(entry);
    if covered(gsi_base, held(initial, before, IOAPIC_REG_VERSION), other) {
        if other < gsi {
            law_entries_have_registers_of_their_own(other - gsi_base, gsi - gsi_base);
        } else if gsi < other {
            law_entries_have_registers_of_their_own(gsi - gsi_base, other - gsi_base);
        }
    }
}

/// Masking or unmasking an entry changes its mask bit, and nothing else that the
/// registers hold: not the rest of its low half, not its high half, and nothing of
/// another entry.
pub proof fn law_masking_changes_one_bit(
    initial: spec_fn(u32) -> u32,
    before: Seq<RegOp>,
    after: Seq<RegOp>,
    gsi_base: u32,
    gsi: u32,
    masked: bool,
    index: u32,
)
    requires
        keeps(initial, after),
        masks(before, after, gsi_base, gsi, masked, true),
    ensures
        keeps(initial, before),
        covered(gsi_base, held(initial, before, IOAPIC_REG_VERSION), gsi),
        held(initial, after, index) == (if index == low_reg(gsi - gsi_base) {
            with_mask(held(initial, before, index), masked)
        } else {
            held(initial, before, index)
        }),
        held_entry(initial, after, gsi_base, gsi) == (Redirection {
            masked,
            ..held_entry(initial, before, gsi_base, gsi)
        }),
{
    let (version, low, high) = choose|version: u32, low: u32, high: u32|
        after == before + #[trigger] lookup(gsi_base, gsi, version, low, high) + reg_write(
            low_reg(gsi - gsi_base),
            with_mask(low, masked),
        ) && covered(gsi_base, version, gsi);
    let reg = low_reg(gsi - gsi_base);
    let middle = before + lookup(gsi_base, gsi, version, low, high);
    lemma_lookup(initial, before, gsi_base, gsi, version, low, high);
    lemma_reg_write(initial, middle, reg, with_mask(low, masked));
    assert(held(initial, middle, index) == held(initial, before, index));
    assert(held(initial, middle, reg) == held(initial, before, reg));
    assert(held(initial, middle, (reg + 1) as u32) == held(initial, before, (reg + 1) as u32));
    law_masking_an_entry_keeps_the_rest_of_it(low, high, masked, 0);
}

/// An entry that is written reads back, and the others stay: over registers that
/// keep what is written, reading line `h`, programming line `g`, and reading both
/// gives back what was programmed for `g` and what was read before for `h`.
pub proof fn law_an_entry_written_reads_back(
    initial: spec_fn(u32) -> u32,
    logs: (Seq<RegOp>, Seq<RegOp>, Seq<RegOp>, Seq<RegOp>, Seq<RegOp>),
    gsi_base: u32,
    g: u32,
    h: u32,
    entry: Redirection,
    r: Redirection,
    read_g: Option<Redirection>,
    read_h: Option<Redirection>,
)
    requires
        g != h,
        keeps(initial, logs.4),
        reads(logs.0, logs.1, gsi_base, h, Some(r)),
        programs(logs.1, logs.2, gsi_base, g, entry, true),
        reads(logs.2, logs.3, gsi_base, g, read_g),
        reads(logs.3, logs.4, gsi_base, h, read_h),
    ensures
        read_g == Some(entry),
        read_h == Some(r),
{
    law_an_entry_is_read_as_it_is_held(initial, logs.3, logs.4, gsi_base, h, read_h);
    law_an_entry_is_read_as_it_is_held(initial, logs.2, logs.3, gsi_base, g, read_g);
    law_programming_changes_one_entry(initial, logs.1, logs.2, gsi_base, g, entry, h);
    law_an_entry_is_read_as_it_is_held(initial, logs.0, logs.1, gsi_base, h, Some(r));
    assert(held(initial, logs.1, IOAPIC_REG_VERSION) == held(
        initial,
        logs.0,
        IOAPIC_REG_VERSION,
    ));
    assert(held(initial, logs.3, IOAPIC_REG_VERSION) == held(
        initial,
        logs.2,
        IOAPIC_REG_VERSION,
    ));
    let reg = low_reg(h - gsi_base);
    assert(held(initial, logs.1, reg) == held(initial, logs.0, reg));
    assert(held(initial, logs.1, (reg + 1) as u32) == held(initial, logs.0, (reg + 1) as u32));
    assert(held(initial, logs.3, reg) == held(initial, logs.2, reg));
    assert(held(initial, logs.3, (reg + 1) as u32) == held(initial, logs.2, (reg + 1) as u32));
}

/// Masking everything writes two registers for each entry there is and none
/// beyond, and every low half it writes is a masked one.
pub proof fn law_masking_everything_covers_every_entry(n: nat, i: int)
    requires
        0 <= i < n,
    ensures
        mask_sequence(n).len() == 4 * n,
        mask_sequence(n).subrange(4 * i, 4 * i + 4) == entry_write(i, LVT_MASKED, 0),
        entry_of(LVT_MASKED, 0).masked,
    decreases n,
{
    if n > 0 {
        let rest = mask_sequence((n - 1) as nat);
        let last = entry_write(n - 1, LVT_MASKED, 0);
        if i < n - 1 {
            law_masking_everything_covers_every_entry((n - 1) as nat, i);
            assert((rest + last).subrange(4 * i, 4 * i + 4) =~= rest.subrange(4 * i, 4 * i + 4));
        } else {
            if n > 1 {
                law_masking_everything_covers_every_entry((n - 1) as nat, 0);
            }
            assert((rest + last).subrange(4 * i, 4 * i + 4) =~= last);
        }
    }
}

/// No two lines of a controller share a register.
pub proof fn law_entries_have_registers_of_their_own(i: int, j: int)
    requires
        0 <= i < j < 0x100,
    ensures
        low_reg(i) + 1 < low_reg(j),
{
}

/// Every field of an entry has bits of its own: the vector the lowest eight, the
/// polarity bit 13, the trigger bit 15 and the mask bit 16 of the low half, the
/// destination the highest eight of the high half. The other bits are clear, so
/// that delivery is of this vector to this core.
pub proof fn law_each_field_has_its_own_bits(entry: Redirection)
    ensures
        entry.low() & 0xFF == entry.vector,
        entry.low() & 0x2000 != 0 <==> entry.active_low,
        entry.low() & 0x8000 != 0 <==> entry.level_triggered,
        entry.low() & 0x1_0000 != 0 <==> entry.masked,
        entry.low() & 0xFFFE_5F00 == 0,
        entry.high() >> 24 == entry.destination,
        entry.high() & 0xFF_FFFF == 0,
{
    let low = entry.low();
    let high = entry.high();
    law_an_entry_is_read_bit_by_bit(low, high);
    law_an_entry_survives_its_halves(entry);
    let v = entry.vector as u32;
    let a: u32 = if entry.active_low { 1 } else { 0 };
    let t: u32 = if entry.level_triggered { 1 } else { 0 };
    let m: u32 = if entry.masked { 1 } else { 0 };
    let d = entry.destination as u32;
    assert(low == v + 0x2000 * a + 0x8000 * t + 0x1_0000 * m);
    assert(low & 0xFFFE_5F00 == 0) by (bit_vector)
        requires
            low == v + 0x2000 * a + 0x8000 * t + 0x1_0000 * m,
            v < 0x100,
            a <= 1,
            t <= 1,
            m <= 1,
    ;
    assert(high & 0xFF_FFFF == 0) by (bit_vector)
        requires
            high == d * 0x100_0000,
            d < 0x100,
    ;
}

/// An entry is decoded from those bits and no others.
pub proof fn law_an_entry_is_read_bit_by_bit(low: u32, high: u32)
    ensures
        entry_of(low, high).vector == low & 0xFF,
        entry_of(low, high).destination == high >> 24,
        entry_of(low, high).active_low <==> low & 0x2000 != 0,
        entry_of(low, high).level_triggered <==> low & 0x8000 != 0,
        entry_of(low, high).masked <==> low & 0x1_0000 != 0,
{
    assert(low % 0x100 == low & 0xFF && high / 0x100_0000 == high >> 24 && ((low / 0x2000) % 2 == 1
        <==> low & 0x2000 != 0) && ((low / 0x8000) % 2 == 1 <==> low & 0x8000 != 0) && ((low
        / 0x1_0000) % 2 == 1 <==> low & 0x1_0000 != 0)) by (bit_vector);
}

/// Enabling writes the same registers whatever the spurious vector, and only the
/// last two values depend on it: priorities are accepted, the local lines masked,
/// and the error entry is masked with that vector.
pub proof fn law_enabling_masks_the_local_lines(spurious_vector: u8)
    ensures
        enable_sequence(spurious_vector) =~= seq![
            RegOp::Write { offset: 0x080, value: 0 },
            RegOp::Write { offset: 0x320, value: 0x1_0000 },
            RegOp::Write { offset: 0x350, value: 0x1_0000 },
            RegOp::Write { offset: 0x360, value: 0x1_0000 },
            RegOp::Write { offset: 0x370, value: (0x1_0000 + spurious_vector) as u32 },
            RegOp::Write { offset: 0x0F0, value: (0x100 + spurious_vector) as u32 },
        ],
{
}

/// A line is active low only if both bits of its polarity are set, and level
/// triggered only if both bits of its trigger mode are; no other bit of the flags
/// counts.
pub proof fn law_only_explicit_flags_change_a_line(flags: u16)
    ensures
        line_mode(flags).0 <==> flags & 1 != 0 && flags & 2 != 0,
        line_mode(flags).1 <==> flags & 4 != 0 && flags & 8 != 0,
{
    assert((flags % 4 == 3 <==> flags & 1 != 0 && flags & 2 != 0) && ((flags / 4) % 4 == 3
        <==> flags & 4 != 0 && flags & 8 != 0)) by (bit_vector);
}

/// A controller has as many entries as one more than bits 16 to 23 of its version
/// say, and covers exactly as many lines, from its base on.
pub proof fn law_a_controller_covers_as_many_lines_as_it_has_entries(
    gsi_base: u32,
    version: u32,
    gsi: u32,
)
    ensures
        entries_of(version) == ((version >> 16) & 0xFF) + 1,
        covered(gsi_base, version, gsi) <==> 0 <= gsi - gsi_base <= (version >> 16) & 0xFF,
{
    assert((version / 0x1_0000) % 0x100 == (version >> 16) & 0xFF) by (bit_vector);
}

/// The entries follow one another from register 16 on, two registers each: the low
/// half and then the high half.
pub proof fn law_entries_follow_one_another(index: int)
    requires
        0 <= index < 0x100,
    ensures
        low_reg(0) == 16,
        index > 0 ==> low_reg(index) == low_reg(index - 1) + 2,
        low_reg(index) <= 16 + 2 * 255,
{
}

/// An indirect register is selected before it is accessed, and an entry is written
/// with its low half last, so that the mask is not lifted while the old destination
/// stands.
pub proof fn law_the_low_half_is_written_last(index: int, low: u32, high: u32)
    requires
        0 <= index < 0x100,
    ensures
        entry_write(index, low, high) =~= seq![
            RegOp::Write { offset: 0x00, value: (17 + 2 * index) as u32 },
            RegOp::Write { offset: 0x10, value: high },
            RegOp::Write { offset: 0x00, value: (16 + 2 * index) as u32 },
            RegOp::Write { offset: 0x10, value: low },
        ],
        entry_read(index, low, high) =~= seq![
            RegOp::Write { offset: 0x00, value: (16 + 2 * index) as u32 },
            RegOp::Read { offset: 0x10, value: low },
            RegOp::Write { offset: 0x00, value: (17 + 2 * index) as u32 },
            RegOp::Read { offset: 0x10, value: high },
        ],
{
}

/// A line is programmed exactly when the controller has an entry for it, and
/// otherwise nothing that the registers hold is changed.
pub proof fn law_a_line_is_programmed_if_it_is_covered(
    initial: spec_fn(u32) -> u32,
    before: Seq<RegOp>,
    after: Seq<RegOp>,
    gsi_base: u32,
    gsi: u32,
    entry: Redirection,
    done: bool,
)
    requires
        keeps(initial, after),
        programs(before, after, gsi_base, gsi, entry, done),
    ensures
        done <==> 0 <= gsi - gsi_base <= (held(initial, before, 1) >> 16) & 0xFF,
        !done ==> forall|j: u32| #[trigger]
            held(initial, after, j) == held(initial, before, j),
{
    let version = choose|version: u32|
        after == before + #[trigger] reg_read(IOAPIC_REG_VERSION, version) + (if done {
            entry_write(gsi - gsi_base, entry.low(), entry.high())
        } else {
            Seq::empty()
        }) && done == covered(gsi_base, version, gsi);
    lemma_reg_read(initial, before, IOAPIC_REG_VERSION, version);
    let first = before + reg_read(IOAPIC_REG_VERSION, version);
    if done {
        law_programming_changes_one_entry(initial, before, after, gsi_base, gsi, entry, gsi);
        law_a_controller_covers_as_many_lines_as_it_has_entries(
            gsi_base,
            held(initial, before, IOAPIC_REG_VERSION),
            gsi,
        );
    } else {
        assert(after =~= first);
        law_a_controller_covers_as_many_lines_as_it_has_entries(gsi_base, version, gsi);
        assert forall|j: u32| #[trigger]
            held(initial, after, j) == held(initial, before, j) by {
            assert(held(initial, first, j) == held(initial, before, j));
        }
    }
}

/// A line is masked or unmasked exactly when the controller has an entry for it,
/// and otherwise nothing that the registers hold is changed.
pub proof fn law_a_line_is_masked_if_it_is_covered(
    initial: spec_fn(u32) -> u32,
    before: Seq<RegOp>,
    after: Seq<RegOp>,
    gsi_base: u32,
    gsi: u32,
    masked: bool,
    done: bool,
)
    requires
        keeps(initial, after),
        masks(before, after, gsi_base, gsi, masked, done),
    ensures
        done <==> 0 <= gsi - gsi_base <= (held(initial, before, 1) >> 16) & 0xFF,
        !done ==> forall|j: u32| #[trigger]
            held(initial, after, j) == held(initial, before, j),
{
    if done {
        law_masking_changes_one_bit(initial, before, after, gsi_base, gsi, masked, 0);
        law_a_controller_covers_as_many_lines_as_it_has_entries(
            gsi_base,
            held(initial, before, IOAPIC_REG_VERSION),
            gsi,
        );
    } else {
        let (version, low, high) = choose|version: u32, low: u32, high: u32|
            after == before + #[trigger] lookup(gsi_base, gsi, version, low, high) + Seq::empty()
                && !covered(gsi_base, version, gsi);
        let looked = before + lookup(gsi_base, gsi, version, low, high);
        assert(after =~= looked);
        lemma_lookup(initial, before, gsi_base, gsi, version, low, high);
        law_a_controller_covers_as_many_lines_as_it_has_entries(gsi_base, version, gsi);
        assert forall|j: u32| #[trigger]
            held(initial, after, j) == held(initial, before, j) by {
            assert(held(initial, looked, j) == held(initial, before, j));
        }
    }
}

/// Reading a line finds an entry exactly when the controller has one for it.
pub proof fn law_a_line_is_read_if_it_is_covered(
    initial: spec_fn(u32) -> u32,
    before: Seq<RegOp>,
    after: Seq<RegOp>,
    gsi_base: u32,
    gsi: u32,
    entry: Option<Redirection>,
)
    requires
        keeps(initial, after),
        reads(before, after, gsi_base, gsi, entry),
    ensures
        entry is Some <==> 0 <= gsi - gsi_base <= (held(initial, before, 1) >> 16) & 0xFF,
        entry matches Some(e) ==> {
            let low = held(initial, before, (16 + 2 * (gsi - gsi_base)) as u32);
            let high = held(initial, before, (17 + 2 * (gsi - gsi_base)) as u32);
            &&& e.vector == low & 0xFF
            &&& e.destination == high >> 24
            &&& e.active_low == (low & 0x2000 != 0)
            &&& e.level_triggered == (low & 0x8000 != 0)
            &&& e.masked == (low & 0x1_0000 != 0)
        },
{
    law_an_entry_is_read_as_it_is_held(initial, before, after, gsi_base, gsi, entry);
    let version = held(initial, before, IOAPIC_REG_VERSION);
    law_a_controller_covers_as_many_lines_as_it_has_entries(gsi_base, version, gsi);
    if entry is Some {
        law_an_entry_is_read_bit_by_bit(
            held(initial, before, (16 + 2 * (gsi - gsi_base)) as u32),
            held(initial, before, (17 + 2 * (gsi - gsi_base)) as u32),
        );
    }
}

/// Masking everything leaves every entry masked: whatever the registers held, after
/// it the low half of each of the first `n` entries has its mask bit set, and its
/// high half is clear. Registers of no such entry keep what they held.
pub proof fn law_masking_everything_leaves_every_entry_masked(
    initial: spec_fn(u32) -> u32,
    log: Seq<RegOp>,
    n: nat,
    index: u32,
)
    requires
        n <= 0x100,
    ensures
        held(initial, log + mask_sequence(n), index) == (if 16 <= index < 16 + 2 * n {
            if index % 2 == 0 {
                0x1_0000
            } else {
                0
            }
        } else {
            held(initial, log, index)
        }),
    decreases n,
{
    if n == 0 {
        assert(log + mask_sequence(n) =~= log);
    } else {
        let m = (n - 1) as nat;
        let rest = log + mask_sequence(m);
        let reg = low_reg(n - 1);
        law_masking_everything_leaves_every_entry_masked(initial, log, m, index);
        let first = rest + reg_write((reg + 1) as u32, 0);
        let second = first + reg_write(reg, LVT_MASKED);
        assert(log + mask_sequence(n) =~= second);
        lemma_reg_write(initial, rest, (reg + 1) as u32, 0);
        lemma_reg_write(initial, first, reg, LVT_MASKED);
        assert(held(initial, second, index) == (if index == reg {
            LVT_MASKED
        } else {
            held(initial, first, index)
        }));
    }
}

/// What a local APIC says of itself is read from one register each, and nothing is
/// written: its id is the highest byte of the register at 0x20, its version the
/// lowest byte of the one at 0x30, and the number of its last local entry bits 16 to
/// 23 of that.
pub proof fn law_a_local_apic_is_asked_without_writing<M: Mmio32>(
    a: &mut LocalApic<M>,
    b: &mut LocalApic<M>,
    c: &mut LocalApic<M>,
    id: u8,
    version: u8,
    entries: u8,
)
    requires
        call_ensures(LocalApic::<M>::id, (a,), id),
        call_ensures(LocalApic::<M>::version, (b,), version),
        call_ensures(LocalApic::<M>::lvt_entries, (c,), entries),
    ensures
        ({
            let value = final(a).regs.log().last()->Read_value;
            &&& final(a).regs.log() == old(a).regs.log().push(RegOp::Read { offset: 0x20, value })
            &&& id == value / 0x100_0000
        }),
        ({
            let value = final(b).regs.log().last()->Read_value;
            &&& final(b).regs.log() == old(b).regs.log().push(RegOp::Read { offset: 0x30, value })
            &&& version == value % 0x100
        }),
        ({
            let value = final(c).regs.log().last()->Read_value;
            let last = value / 0x1_0000 % 0x100;
            &&& final(c).regs.log() == old(c).regs.log().push(RegOp::Read { offset: 0x30, value })
            &&& last < 0xFF ==> entries == last + 1
            &&& last == 0xFF ==> entries == 0xFF
        }),
{
}

/// Whether a local APIC is enabled, and its spurious vector, are read from one
/// register: from bit 8 and from the lowest byte. An interrupt is acknowledged by one
/// write, which names nothing.
pub proof fn law_a_local_apic_says_what_it_was_told<M: Mmio32>(
    a: &mut LocalApic<M>,
    b: &mut LocalApic<M>,
    c: &mut LocalApic<M>,
    on: bool,
    vector: u8,
)
    requires
        call_ensures(LocalApic::<M>::is_enabled, (a,), on),
        call_ensures(LocalApic::<M>::spurious_vector, (b,), vector),
        call_ensures(LocalApic::<M>::end_of_interrupt, (c,), ()),
    ensures
        ({
            let value = final(a).regs.log().last()->Read_value;
            &&& final(a).regs.log() == old(a).regs.log().push(RegOp::Read { offset: 0xF0, value })
            &&& on <==> value & 0x100 != 0
        }),
        ({
            let value = final(b).regs.log().last()->Read_value;
            &&& final(b).regs.log() == old(b).regs.log().push(RegOp::Read { offset: 0xF0, value })
            &&& vector == value % 0x100
        }),
        final(c).regs.log() == old(c).regs.log().push(RegOp::Write { offset: 0xB0, value: 0 }),
{
    let value = final(a).regs.log().last()->Read_value;
    assert((value / 0x100) % 2 == 1 <==> value & 0x100 != 0) by (bit_vector);
}

/// What an I/O APIC says of itself is read from the register that says it, which is
/// selected first: its id is four bits, its version the lowest byte, and it has one
/// entry more than bits 16 to 23 say.
pub proof fn law_an_io_apic_is_asked_register_by_register<M: Mmio32>(
    a: &mut IoApic<M>,
    b: &mut IoApic<M>,
    c: &mut IoApic<M>,
    id: u8,
    version: u8,
    count: u32,
)
    requires
        call_ensures(IoApic::<M>::id, (a,), id),
        call_ensures(IoApic::<M>::version, (b,), version),
        call_ensures(IoApic::<M>::entry_count, (c,), count),
    ensures
        ({
            let value = final(a).regs.log().last()->Read_value;
            &&& final(a).regs.log() =~= old(a).regs.log().push(
                RegOp::Write { offset: 0, value: 0 },
            ).push(RegOp::Read { offset: 0x10, value })
            &&& id == value / 0x100_0000 % 16
        }),
        ({
            let value = final(b).regs.log().last()->Read_value;
            &&& final(b).regs.log() =~= old(b).regs.log().push(
                RegOp::Write { offset: 0, value: 1 },
            ).push(RegOp::Read { offset: 0x10, value })
            &&& version == value % 0x100
        }),
        ({
            let value = final(c).regs.log().last()->Read_value;
            &&& final(c).regs.log() =~= old(c).regs.log().push(
                RegOp::Write { offset: 0, value: 1 },
            ).push(RegOp::Read { offset: 0x10, value })
            &&& count == value / 0x1_0000 % 0x100 + 1
        }),
        final(a).gsi_base == old(a).gsi_base,
        final(b).gsi_base == old(b).gsi_base,
        final(c).gsi_base == old(c).gsi_base,
{
}

} // verus!
