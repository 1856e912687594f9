use staros_pc::arch::apic::{
    lapic_reg, polarity_and_trigger, IoApic, LocalApic, Redirection, IOAPIC_REG_ID,
    IOAPIC_REG_VERSION, IOAPIC_SELECT, IOAPIC_WINDOW, LVT_MASKED, SPURIOUS_ENABLE,
};
use staros_pc::arch::mmio::Mmio32;

#[derive(Default)]
struct Recorder {
    writes: Vec<(usize, u32)>,
    state: std::collections::HashMap<usize, u32>,
}

impl Mmio32 for Recorder {
    fn read(&mut self, offset: usize) -> u32 {
        self.state.get(&offset).copied().unwrap_or(0)
    }
    fn write(&mut self, offset: usize, value: u32) {
        self.writes.push((offset, value));
        self.state.insert(offset, value);
    }
}

#[derive(Default)]
struct IndirectRecorder {
    selected: u32,
    regs: std::collections::HashMap<u32, u32>,
    log: Vec<(u32, u32, bool)>,
}

impl Mmio32 for IndirectRecorder {
    fn read(&mut self, offset: usize) -> u32 {
        assert_eq!(offset, IOAPIC_WINDOW, "read from something other than the window");
        let value = self.regs.get(&self.selected).copied().unwrap_or(0);
        self.log.push((self.selected, value, false));
        value
    }
    fn write(&mut self, offset: usize, value: u32) {
        match offset {
            IOAPIC_SELECT => self.selected = value,
            IOAPIC_WINDOW => {
                self.regs.insert(self.selected, value);
                self.log.push((self.selected, value, true));
            }
            other => panic!("write to offset {other:#x}, which is not a register"),
        }
    }
}

fn io_apic(entries: u32, gsi_base: u32) -> IoApic<IndirectRecorder> {
    let mut regs = IndirectRecorder::default();
    regs.regs.insert(IOAPIC_REG_VERSION, ((entries - 1) << 16) | 0x11);
    IoApic::new(regs, gsi_base)
}

#[test]
fn local_apic_registers_are_where_the_architecture_puts_them() {
    assert_eq!(lapic_reg::ID, 0x20);
    assert_eq!(lapic_reg::VERSION, 0x30);
    assert_eq!(lapic_reg::TASK_PRIORITY, 0x80);
    assert_eq!(lapic_reg::EOI, 0xB0);
    assert_eq!(lapic_reg::SPURIOUS, 0xF0);
    assert_eq!(lapic_reg::ICR_LOW, 0x300);
    assert_eq!(lapic_reg::ICR_HIGH, 0x310);
    for reg in [
        lapic_reg::ID,
        lapic_reg::VERSION,
        lapic_reg::TASK_PRIORITY,
        lapic_reg::EOI,
        lapic_reg::SPURIOUS,
        lapic_reg::ICR_LOW,
        lapic_reg::ICR_HIGH,
        lapic_reg::LVT_TIMER,
        lapic_reg::LVT_LINT0,
        lapic_reg::LVT_LINT1,
        lapic_reg::LVT_ERROR,
    ] {
        assert_eq!(reg % 16, 0, "{reg:#x} is not on a 16-byte boundary");
    }
}

#[test]
fn enabling_lowers_the_priority_and_masks_what_firmware_left() {
    let mut lapic = LocalApic::new(Recorder::default());
    lapic.enable(0xFF);
    assert_eq!(
        lapic.regs.writes,
        vec![
            (lapic_reg::TASK_PRIORITY, 0),
            (lapic_reg::LVT_TIMER, LVT_MASKED),
            (lapic_reg::LVT_LINT0, LVT_MASKED),
            (lapic_reg::LVT_LINT1, LVT_MASKED),
            (lapic_reg::LVT_ERROR, LVT_MASKED | 0xFF),
            (lapic_reg::SPURIOUS, SPURIOUS_ENABLE | 0xFF),
        ],
    );
    assert!(lapic.is_enabled());
    assert_eq!(lapic.spurious_vector(), 0xFF);
}

#[test]
fn end_of_interrupt_writes_zero_and_names_nothing() {
    let mut lapic = LocalApic::new(Recorder::default());
    lapic.end_of_interrupt();
    assert_eq!(lapic.regs.writes, vec![(lapic_reg::EOI, 0)]);
}

#[test]
fn the_apic_id_is_the_top_byte() {
    let mut lapic = LocalApic::new(Recorder::default());
    lapic.regs.state.insert(lapic_reg::ID, 0x0F00_0000);
    assert_eq!(lapic.id(), 0x0F);
    lapic.regs.state.insert(lapic_reg::VERSION, 0x0006_0014);
    assert_eq!(lapic.version(), 0x14);
    assert_eq!(lapic.lvt_entries(), 7);
}

#[test]
fn an_indirect_register_is_selected_before_it_is_touched() {
    let mut io = io_apic(24, 0);
    let count = io.entry_count();
    assert_eq!(count, 24);
    assert_eq!(io.regs.log, vec![(IOAPIC_REG_VERSION, 0x0017_0011, false)]);
}

#[test]
fn a_redirection_entry_is_two_registers_at_the_right_indices() {
    let mut io = io_apic(24, 0);
    io.regs.log.clear();
    io.set_redirection(2, Redirection {
        vector: 32,
        destination: 0,
        active_low: false,
        level_triggered: false,
        masked: false,
    });
    let writes: Vec<_> = io.regs.log.iter().filter(|e| e.2).map(|e| (e.0, e.1)).collect();
    assert_eq!(writes, vec![(0x15, 0), (0x14, 32)]);
}

#[test]
fn the_high_half_is_written_before_the_mask_is_lifted() {
    let mut io = io_apic(24, 0);
    io.regs.log.clear();
    io.set_redirection(1, Redirection {
        vector: 33,
        destination: 3,
        active_low: false,
        level_triggered: false,
        masked: false,
    });
    let writes: Vec<_> = io.regs.log.iter().filter(|e| e.2).collect();
    assert_eq!(writes[0].0, 0x13, "the high half must go out first");
    assert_eq!(writes[1].0, 0x12);
}

#[test]
fn a_redirection_round_trips_through_its_two_halves() {
    let entry = Redirection {
        vector: 0x35,
        destination: 0x07,
        active_low: true,
        level_triggered: true,
        masked: false,
    };
    assert_eq!(Redirection::from_bits(entry.low_bits(), entry.high_bits()), entry);
    assert_eq!(entry.high_bits(), 0x0700_0000);
    assert_eq!(entry.low_bits() & 0xFF, 0x35);
    assert_eq!(entry.low_bits() & (1 << 13), 1 << 13);
    assert_eq!(entry.low_bits() & (1 << 15), 1 << 15);
    assert_eq!(entry.low_bits() & (1 << 16), 0);
    assert_eq!((entry.low_bits() >> 8) & 0b111, 0);
}

#[test]
fn an_unprogrammed_entry_is_masked() {
    assert!(Redirection::masked().masked);
    assert_eq!(Redirection::masked().low_bits(), 1 << 16);
}

#[test]
fn masking_one_line_leaves_its_routing_alone() {
    let mut io = io_apic(24, 0);
    let entry = Redirection {
        vector: 44,
        destination: 1,
        active_low: true,
        level_triggered: true,
        masked: false,
    };
    io.set_redirection(4, entry);
    io.set_masked(4, true);
    let back = io.redirection(4).unwrap();
    assert!(back.masked);
    assert_eq!(back.vector, 44);
    assert_eq!(back.destination, 1);
    assert!(back.active_low && back.level_triggered);
    io.set_masked(4, false);
    assert_eq!(io.redirection(4).unwrap(), entry);
}

#[test]
fn a_second_controller_addresses_its_entries_from_its_own_base() {
    let mut io = io_apic(8, 24);
    assert!(!io.covers(23));
    assert!(io.covers(24));
    assert!(io.covers(31));
    assert!(!io.covers(32));
    io.regs.log.clear();
    io.set_redirection(24, Redirection { vector: 50, ..Redirection::masked() });
    let writes: Vec<_> = io.regs.log.iter().filter(|e| e.2).map(|e| e.0).collect();
    assert_eq!(writes, vec![0x11, 0x10], "the first entry of the second controller");
}

#[test]
fn masking_everything_covers_exactly_the_entries_that_exist() {
    let mut io = io_apic(24, 0);
    io.regs.log.clear();
    io.mask_all();
    let writes: Vec<_> = io.regs.log.iter().filter(|e| e.2).map(|e| e.0).collect();
    assert_eq!(writes.len(), 48, "two registers per entry, 24 entries");
    assert_eq!(*writes.iter().max().unwrap(), 0x10 + 47);
    for gsi in 0..24 {
        assert!(io.redirection(gsi).unwrap().masked, "GSI {gsi} came back unmasked");
    }
}

#[test]
fn madt_flags_decode_to_polarity_and_trigger() {
    assert_eq!(polarity_and_trigger(0), (false, false));
    assert_eq!(polarity_and_trigger(0b01), (false, false));
    assert_eq!(polarity_and_trigger(0b11), (true, false));
    assert_eq!(polarity_and_trigger(0b0100), (false, false));
    assert_eq!(polarity_and_trigger(0b1100), (false, true));
    assert_eq!(polarity_and_trigger(0b1111), (true, true));
}

#[test]
fn a_line_of_another_controller_is_left_alone() {
    let mut io = io_apic(8, 24);
    io.regs.log.clear();
    assert!(!io.set_redirection(23, Redirection::masked()));
    assert!(!io.set_masked(32, false));
    assert_eq!(io.redirection(32), None);
    assert!(io.regs.log.iter().all(|e| !e.2), "something was written");
    assert!(io.set_redirection(31, Redirection::masked()));
}

#[test]
fn a_controller_at_the_end_of_the_numbers_is_covered() {
    let mut io = io_apic(24, u32::MAX - 3);
    assert!(io.covers(u32::MAX));
    assert!(!io.covers(0));
}

#[test]
fn a_controller_says_who_it_is() {
    let mut io = io_apic(24, 7);
    io.regs.regs.insert(IOAPIC_REG_ID, 0xF500_0000);
    assert_eq!(io.id(), 5);
    assert_eq!(io.version(), 0x11);
    assert_eq!(io.gsi_base(), 7);
}

#[test]
fn the_entry_count_of_a_local_apic_saturates() {
    let mut lapic = LocalApic::new(Recorder::default());
    lapic.regs.state.insert(lapic_reg::VERSION, 0x00FF_0014);
    assert_eq!(lapic.lvt_entries(), 255);
}

#[test]
fn unmasking_keeps_the_delivery_mode() {
    let mut io = io_apic(24, 0);
    // Masked, delivery mode 7, vector 0x21.
    io.regs.regs.insert(0x14, 0x0001_0721);
    io.regs.regs.insert(0x15, 0);
    assert!(io.set_masked(2, false));
    assert_eq!(io.regs.regs[&0x14], 0x0000_0721);
    assert_eq!(io.regs.regs[&0x15], 0);
    assert!(io.set_masked(2, true));
    assert_eq!(io.regs.regs[&0x14], 0x0001_0721);
    // Every bit but the mask.
    io.regs.regs.insert(0x14, 0xFFFE_FFFF);
    assert!(io.set_masked(2, true));
    assert_eq!(io.regs.regs[&0x14], 0xFFFF_FFFF);
}

#[test]
fn an_entry_that_is_written_reads_back_and_its_neighbours_stay() {
    let mut io = io_apic(24, 8);
    let before = Redirection { vector: 77, destination: 3, ..Redirection::masked() };
    io.set_redirection(10, before);
    io.set_redirection(12, before);
    let entry = Redirection {
        vector: 50,
        destination: 9,
        active_low: true,
        level_triggered: false,
        masked: false,
    };
    assert!(io.set_redirection(11, entry));
    assert_eq!(io.redirection(11), Some(entry));
    assert_eq!(io.redirection(10), Some(before));
    assert_eq!(io.redirection(12), Some(before));
    assert!(io.set_masked(11, true));
    assert_eq!(io.redirection(11), Some(Redirection { masked: true, ..entry }));
    assert_eq!(io.redirection(10), Some(before));
}
