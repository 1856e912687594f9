use std::mem::size_of;

use staros_pc::arch::gdt;
use staros_pc::arch::idt::{fill, ist_for, Entry, VECTORS};

#[test]
fn a_gate_is_sixteen_bytes() {
    assert_eq!(size_of::<Entry>(), 16);
    assert_eq!(size_of::<[Entry; VECTORS]>(), 4096);
}

#[test]
fn the_handler_address_survives_being_split_in_three() {
    let addr = 0xFFFF_FFFF_8012_3456;
    let e = Entry::interrupt_gate(addr, 0);
    assert_eq!(e.handler(), addr);
    assert_eq!(e.offset_low, 0x3456);
    assert_eq!(e.offset_mid, 0x8012);
    assert_eq!(e.offset_high, 0xFFFF_FFFF);
}

#[test]
fn gates_are_present_interrupt_gates_at_dpl_zero() {
    let e = Entry::interrupt_gate(0xFFFF_FFFF_8000_0000, 0);
    assert_eq!(e.flags & 0x80, 0x80, "not present");
    assert_eq!((e.flags >> 5) & 0b11, 0, "DPL is not 0: ring 3 could invoke this");
    assert_eq!(e.flags & 0xF, 0xE, "not a 64-bit interrupt gate");
    assert_ne!(e.flags & 0xF, 0xF);
    assert_eq!(e.selector, gdt::KERNEL_CODE);
}

#[test]
fn an_unfilled_gate_is_not_present() {
    assert_eq!(Entry::empty().flags & 0x80, 0);
}

#[test]
fn only_the_three_fatal_vectors_take_an_ist() {
    for vector in 0..VECTORS {
        let expected = match vector {
            8 => gdt::IST_DOUBLE_FAULT,
            2 => gdt::IST_NMI,
            18 => gdt::IST_MACHINE_CHECK,
            _ => 0,
        };
        assert_eq!(ist_for(vector), expected, "vector {vector}");
    }
}

#[test]
fn the_ist_field_cannot_spill_into_its_neighbours() {
    let e = Entry::interrupt_gate(0, 0xFF);
    assert_eq!(e.ist, 0b111);
    assert_eq!(e.ist(), 7);
}

#[test]
fn every_stub_becomes_the_gate_of_its_vector() {
    let stubs: Vec<u64> = (0..VECTORS as u64).map(|v| 0xFFFF_FFFF_8000_0000 + v * 16).collect();
    let mut table = [Entry::empty(); VECTORS];
    fill(&stubs, &mut table);
    for (v, entry) in table.iter().enumerate() {
        assert_eq!(entry.handler(), stubs[v]);
        assert_eq!(entry.ist(), ist_for(v));
    }
}

#[test]
fn a_gate_is_two_words_in_memory() {
    let (low, high) = Entry::interrupt_gate(0xFFFF_FFFF_8012_3456, 2).to_words();
    assert_eq!(low, 0x8012_8E02_0008_3456);
    assert_eq!(high, 0x0000_0000_FFFF_FFFF);
}
