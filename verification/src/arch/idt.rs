//! The interrupt descriptor table: 256 gates of sixteen bytes, indexed by vector
//! number, each with a handler address split over three fields.
//!
//! Every gate is an interrupt gate, which masks interrupts on entry: a fault report
//! must not be interrupted halfway by a device that also wants the console. Every
//! gate is for the kernel alone: nothing in ring 3 can hand the kernel a synthetic
//! fault.
use crate::arch::gdt;
use vstd::prelude::*;

verus! {

/// Number of vectors the architecture defines.
pub const VECTORS: usize = 256;

/// Bytes of one gate.
pub const GATE_LEN: usize = 16;

/// Present, for ring 0 only, 64-bit interrupt gate.
pub const GATE_INTERRUPT: u8 = 0x8E;

/// One gate.
#[derive(Clone, Copy, Debug, PartialEq, Eq, Structural)]
pub struct Entry {
    /// The lowest 16 bits of the handler address.
    pub offset_low: u16,
    /// The code segment the handler runs in.
    pub selector: u16,
    /// The interrupt stack to switch to, or zero.
    pub ist: u8,
    /// Present bit, privilege level and gate type.
    pub flags: u8,
    /// The next 16 bits of the handler address.
    pub offset_mid: u16,
    /// The upper half of the handler address.
    pub offset_high: u32,
    /// Reserved, zero.
    pub reserved: u32,
}

/// The entry that leads to a handler.
pub open spec fn gate(handler: u64, ist: u8) -> Entry {
    Entry {
        offset_low: (handler % 0x1_0000) as u16,
        selector: gdt::KERNEL_CODE,
        ist: ist % 8,
        flags: GATE_INTERRUPT,
        offset_mid: ((handler / 0x1_0000) % 0x1_0000) as u16,
        offset_high: (handler / 0x1_0000_0000) as u32,
        reserved: 0,
    }
}

impl Entry {
    /// A gate the processor will reject: not present, so a vector that was never
    /// filled in names itself rather than jumping to address zero.
    #[must_use]
    pub fn empty() -> (entry: Entry)
        ensures
            entry == (Entry {
                offset_low: 0,
                selector: 0,
                ist: 0,
                flags: 0,
                offset_mid: 0,
                offset_high: 0,
                reserved: 0,
            }),
    {
        Entry {
            offset_low: 0,
            selector: 0,
            ist: 0,
            flags: 0,
            offset_mid: 0,
            offset_high: 0,
            reserved: 0,
        }
    }

    /// Build a gate for `handler`, optionally switching to interrupt stack `ist`.
    /// Of `ist` the three bits that the field has are kept.
    #[must_use]
    pub fn interrupt_gate(handler: u64, ist: u8) -> (entry: Entry)
        ensures
            entry == gate(handler, ist),
    {
        Entry {
            offset_low: (handler % 0x1_0000) as u16,
            selector: gdt::KERNEL_CODE,
            ist: ist % 8,
            flags: GATE_INTERRUPT,
            offset_mid: ((handler / 0x1_0000) % 0x1_0000) as u16,
            offset_high: (handler / 0x1_0000_0000) as u32,
            reserved: 0,
        }
    }

    /// The handler address that the three fields hold.
    pub open spec fn target(self) -> int {
        self.offset_low + 0x1_0000 * self.offset_mid + 0x1_0000_0000 * self.offset_high
    }

    /// The handler address, reassembled from the three fields it is split over.
    #[must_use]
    pub fn handler(&self) -> (handler: u64)
        ensures
            handler == self.target(),
    {
        self.offset_low as u64 + 0x1_0000 * (self.offset_mid as u64) + 0x1_0000_0000 * (
        self.offset_high as u64)
    }

    /// The interrupt stack this gate selects, or zero.
    #[must_use]
    pub fn ist(&self) -> (ist: u8)
        ensures
            ist == self.ist % 8,
    {
        self.ist % 8
    }

    /// This entry as the processor reads it: two 64-bit words.
    #[must_use]
    pub fn to_words(&self) -> (words: (u64, u64))
        ensures
            words.0 == self.offset_low + 0x1_0000 * self.selector + 0x1_0000_0000 * self.ist
                + 0x100_0000_0000 * self.flags + 0x1_0000_0000_0000 * self.offset_mid,
            words.1 == self.offset_high + 0x1_0000_0000 * self.reserved,
    {
        let low = self.offset_low as u64 + 0x1_0000 * (self.selector as u64) + 0x1_0000_0000 * (
        self.ist as u64) + 0x100_0000_0000 * (self.flags as u64) + 0x1_0000_0000_0000 * (
        self.offset_mid as u64);
        let high = self.offset_high as u64 + 0x1_0000_0000 * (self.reserved as u64);
        (low, high)
    }
}

/// A handler address survives being split over a gate, and a gate is always
/// present, for ring 0 only, and names one of the eight stacks the field can hold.
pub proof fn law_the_handler_survives_the_gate(handler: u64, ist: u8)
    ensures
        gate(handler, ist).target() == handler,
        gate(handler, ist).flags / 0x80 == 1,
        (gate(handler, ist).flags / 0x20) % 4 == 0,
        gate(handler, ist).ist < 8,
{
}

/// Which interrupt stack a vector uses, or zero.
pub open spec fn stack_of(vector: int) -> u8 {
    if vector == 8 {
        gdt::IST_DOUBLE_FAULT
    } else if vector == 2 {
        gdt::IST_NMI
    } else if vector == 18 {
        gdt::IST_MACHINE_CHECK
    } else {
        0
    }
}

/// Which interrupt stack a vector uses, or zero for staying on the current one.
///
/// Three vectors and no more. An interrupt stack has one fixed top, so a second
/// delivery of the same vector writes over the first one's frame. That is
/// acceptable exactly for faults that end the boot anyway.
#[must_use]
pub fn ist_for(vector: usize) -> (ist: u8)
    ensures
        ist == stack_of(vector as int),
{
    if vector == 8 {
        gdt::IST_DOUBLE_FAULT
    } else if vector == 2 {
        gdt::IST_NMI
    } else if vector == 18 {
        gdt::IST_MACHINE_CHECK
    } else {
        0
    }
}

/// No two vectors share an interrupt stack.
pub proof fn law_no_two_vectors_share_an_interrupt_stack(a: int, b: int)
    requires
        a != b,
        stack_of(a) != 0,
    ensures
        stack_of(a) != stack_of(b),
        1 <= stack_of(a) <= 7,
{
}

/// Fill the table from the entry points of the vectors, in vector order.
pub fn fill(stubs: &[u64], table: &mut [Entry])
    requires
        stubs@.len() == VECTORS,
        old(table)@.len() == VECTORS,
    ensures
        final(table)@ == Seq::new(
            VECTORS as nat,
            |vector: int| gate(stubs@[vector], stack_of(vector)),
        ),
{
    let mut vector: usize = 0;
    while vector < VECTORS
        invariant
            vector <= VECTORS,
            stubs.len() == VECTORS,
            table.len() == VECTORS,
            forall|v: int|
                0 <= v < vector ==> #[trigger] table@[v] == gate(stubs@[v], stack_of(v)),
        decreases VECTORS - vector,
    {
        table[vector] = Entry::interrupt_gate(stubs[vector], ist_for(vector));
        vector = vector + 1;
    }
    assert(table@ =~= Seq::new(
        VECTORS as nat,
        |vector: int| gate(stubs@[vector], stack_of(vector)),
    ));
}

/// The handler address is split from the lowest bits up, sixteen, sixteen and then
/// thirty-two of them. It is entered in the kernel's code segment.
pub proof fn law_a_gate_splits_the_address_from_the_lowest_bits_up(handler: u64, ist: u8)
    ensures
        gate(handler, ist).offset_low == handler & 0xFFFF,
        gate(handler, ist).offset_mid == (handler >> 16) & 0xFFFF,
        gate(handler, ist).offset_high == handler >> 32,
        gate(handler, ist).selector == 0x08,
        gate(handler, ist).flags == 0x8E,
        gate(handler, ist).reserved == 0,
        gate(handler, ist).ist == ist & 7,
{
    assert(handler % 0x1_0000 == handler & 0xFFFF && (handler / 0x1_0000) % 0x1_0000 == (handler
        >> 16) & 0xFFFF && handler / 0x1_0000_0000 == handler >> 32) by (bit_vector);
    assert(ist % 8 == ist & 7) by (bit_vector);
}

/// The address of a handler is the one whose lowest sixteen bits are the first
/// field, the next sixteen the second and the rest the third.
pub proof fn law_an_address_is_put_together_from_its_fields(entry: Entry)
    ensures
        entry.target() % 0x1_0000 == entry.offset_low,
        (entry.target() / 0x1_0000) % 0x1_0000 == entry.offset_mid,
        entry.target() / 0x1_0000_0000 == entry.offset_high,
{
}

/// Only a double fault, a non-maskable interrupt and a machine check get a stack of
/// their own; every other vector stays on the current one.
pub proof fn law_only_three_vectors_switch_stacks(vector: int)
    ensures
        stack_of(vector) != 0 <==> vector == 2 || vector == 8 || vector == 18,
        stack_of(8) == 1,
        stack_of(2) == 2,
        stack_of(18) == 3,
{
}

/// A gate lies in memory as the processor reads it: the first word has the lowest
/// part of the address, the segment, the stack, the flags and the next part of the
/// address, from the lowest bits up; the second has the upper half.
pub proof fn law_a_gate_is_two_words(entry: Entry, words: (u64, u64))
    requires
        call_ensures(Entry::to_words, (&entry,), words),
    ensures
        words.0 & 0xFFFF == entry.offset_low,
        (words.0 >> 16) & 0xFFFF == entry.selector,
        (words.0 >> 32) & 0xFF == entry.ist,
        (words.0 >> 40) & 0xFF == entry.flags,
        words.0 >> 48 == entry.offset_mid,
        words.1 & 0xFFFF_FFFF == entry.offset_high,
        words.1 >> 32 == entry.reserved,
{
    let w = words.0;
    let x = words.1;
    let a = entry.offset_low as u64;
    let b = entry.selector as u64;
    let c = entry.ist as u64;
    let d = entry.flags as u64;
    let e = entry.offset_mid as u64;
    let h = entry.offset_high as u64;
    let r = entry.reserved as u64;
    assert(w & 0xFFFF == a && (w >> 16) & 0xFFFF == b && (w >> 32) & 0xFF == c && (w >> 40) & 0xFF
        == d && w >> 48 == e) by (bit_vector)
        requires
            a < 0x1_0000,
            b < 0x1_0000,
            c < 0x100,
            d < 0x100,
            e < 0x1_0000,
            w == a + 0x1_0000 * b + 0x1_0000_0000 * c + 0x100_0000_0000 * d + 0x1_0000_0000_0000
                * e,
    ;
    assert(x & 0xFFFF_FFFF == h && x >> 32 == r) by (bit_vector)
        requires
            h < 0x1_0000_0000,
            r < 0x1_0000_0000,
            x == h + 0x1_0000_0000 * r,
    ;
}

/// Every vector leads to its own entry point, on a stack of its own if it is one of
/// the three that have one, and is present for the kernel alone.
pub proof fn law_every_vector_leads_to_its_own_entry(
    stubs: &[u64],
    table: &mut [Entry],
    vector: int,
)
    requires
        stubs@.len() == 256,
        old(table)@.len() == 256,
        call_ensures(fill, (stubs, table), ()),
        0 <= vector < 256,
    ensures
        final(table)@.len() == 256,
        final(table)@[vector].target() == stubs@[vector],
        final(table)@[vector].flags == 0x8E,
        final(table)@[vector].selector == 8,
        final(table)@[vector].ist == (if vector == 8 {
            1u8
        } else if vector == 2 {
            2
        } else if vector == 18 {
            3
        } else {
            0
        }),
{
    law_the_handler_survives_the_gate(stubs@[vector], stack_of(vector));
}

} // verus!
