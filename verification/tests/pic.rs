use staros_pc::arch::pic::{
    Pic8259, CASCADE_IRQ, ICW3_MASTER, ICW3_SLAVE, LINES, MASTER_COMMAND, MASTER_DATA, OCW2_EOI,
    OCW3_READ_ISR, SLAVE_COMMAND, SLAVE_DATA, SPURIOUS_MASTER, SPURIOUS_SLAVE,
};
use staros_pc::arch::port::PortIo;

#[derive(Default)]
struct Recorder {
    writes: Vec<(u16, u8)>,
    data: std::collections::HashMap<u16, u8>,
    status: std::collections::HashMap<u16, u8>,
    waits: usize,
}

impl PortIo for Recorder {
    fn write(&mut self, port: u16, value: u8) {
        self.writes.push((port, value));
        if port == MASTER_DATA || port == SLAVE_DATA {
            self.data.insert(port, value);
        }
    }
    fn read(&mut self, port: u16) -> u8 {
        if port == MASTER_DATA || port == SLAVE_DATA {
            self.data.get(&port).copied().unwrap_or(0)
        } else {
            self.status.get(&port).copied().unwrap_or(0)
        }
    }
    fn wait(&mut self) {
        self.waits += 1;
    }
}

fn remapped() -> Pic8259<Recorder> {
    let mut pic = Pic8259::new(Recorder::default());
    pic.remap(32);
    pic.io.writes.clear();
    pic
}

#[test]
fn the_initialisation_sequence_is_exactly_this() {
    let mut pic = Pic8259::new(Recorder::default());
    pic.remap(32);
    assert_eq!(
        pic.io.writes,
        vec![
            (MASTER_COMMAND, 0x11),
            (SLAVE_COMMAND, 0x11),
            (MASTER_DATA, 32),
            (SLAVE_DATA, 40),
            (MASTER_DATA, 0b100),
            (SLAVE_DATA, 2),
            (MASTER_DATA, 0x01),
            (SLAVE_DATA, 0x01),
            (MASTER_DATA, 0xFF),
            (SLAVE_DATA, 0xFF),
        ],
    );
}

#[test]
fn the_two_icw3_encodings_are_not_interchangeable() {
    assert_eq!(ICW3_MASTER, 0b0000_0100);
    assert_eq!(ICW3_SLAVE, 2);
    assert_ne!(u32::from(ICW3_MASTER), u32::from(ICW3_SLAVE));
}

#[test]
fn the_chips_are_given_settling_time_between_control_words() {
    let mut pic = Pic8259::new(Recorder::default());
    pic.remap(32);
    assert_eq!(pic.io.waits, 8);
}

#[test]
fn vectors_and_lines_are_the_same_fact_read_two_ways() {
    let pic = remapped();
    assert_eq!(pic.vector_for(0), 32);
    assert_eq!(pic.vector_for(1), 33);
    assert_eq!(pic.vector_for(15), 47);
    assert_eq!(pic.irq_for(32), Some(0));
    assert_eq!(pic.irq_for(47), Some(15));
    assert_eq!(pic.irq_for(31), None);
    assert_eq!(pic.irq_for(48), None);
    for irq in 0..LINES {
        assert_eq!(pic.irq_for(pic.vector_for(irq)), Some(irq));
    }
}

#[test]
fn masks_split_across_the_two_chips_in_the_right_order() {
    let mut pic = remapped();
    pic.set_masks(0xFE_DC);
    assert_eq!(pic.io.writes, vec![(MASTER_DATA, 0xDC), (SLAVE_DATA, 0xFE)]);
    assert_eq!(pic.masks(), 0xFE_DC);
}

#[test]
fn unmasking_one_line_leaves_the_others_alone() {
    let mut pic = remapped();
    assert_eq!(pic.masks(), 0xFFFF);
    pic.unmask(1);
    assert_eq!(pic.masks(), 0xFFFD, "the keyboard alone should be open");
    pic.unmask(0);
    assert_eq!(pic.masks(), 0xFFFC);
    pic.mask(1);
    assert_eq!(pic.masks(), 0xFFFE);
}

#[test]
fn unmasking_a_slave_line_opens_the_cascade_too() {
    let mut pic = remapped();
    pic.unmask(8);
    let masks = pic.masks();
    assert_eq!(masks & (1 << 8), 0, "line 8 is still masked");
    assert_eq!(masks & (1 << CASCADE_IRQ), 0, "the cascade line was left masked");
    let mut pic = remapped();
    pic.unmask(1);
    assert_ne!(pic.masks() & (1 << CASCADE_IRQ), 0);
}

#[test]
fn a_slave_interrupt_is_acknowledged_twice_slave_first() {
    let mut pic = remapped();
    pic.end_of_interrupt(1);
    assert_eq!(pic.io.writes, vec![(MASTER_COMMAND, OCW2_EOI)]);

    let mut pic = remapped();
    pic.end_of_interrupt(9);
    assert_eq!(
        pic.io.writes,
        vec![(SLAVE_COMMAND, OCW2_EOI), (MASTER_COMMAND, OCW2_EOI)],
    );
}

#[test]
fn only_the_lowest_priority_line_on_each_chip_can_be_spurious() {
    let mut pic = remapped();
    for irq in 0..LINES {
        let expected = irq == SPURIOUS_MASTER || irq == SPURIOUS_SLAVE;
        assert_eq!(pic.is_spurious(irq), expected, "irq {irq}");
    }
}

#[test]
fn a_line_with_something_in_service_is_not_spurious() {
    let mut pic = remapped();
    pic.io.status.insert(MASTER_COMMAND, 0x80);
    assert!(!pic.is_spurious(SPURIOUS_MASTER));
    assert_eq!(pic.io.writes, vec![(MASTER_COMMAND, OCW3_READ_ISR)]);
}

#[test]
fn a_spurious_interrupt_is_not_acknowledged_on_the_chip_that_raised_it() {
    let mut pic = remapped();
    pic.end_of_spurious(SPURIOUS_MASTER);
    assert!(pic.io.writes.is_empty(), "acknowledged a spurious master interrupt");

    let mut pic = remapped();
    pic.end_of_spurious(SPURIOUS_SLAVE);
    assert_eq!(pic.io.writes, vec![(MASTER_COMMAND, OCW2_EOI)]);
}

#[test]
fn masking_everything_keeps_the_vectors() {
    let mut pic = remapped();
    pic.unmask(3);
    pic.mask_all();
    assert_eq!(pic.masks(), 0xFFFF);
    assert_eq!(pic.base(), 32);
    assert_eq!(Pic8259::new(Recorder::default()).base(), 0);
}

#[test]
fn a_pair_at_the_last_possible_base_has_all_its_lines() {
    let mut pic = Pic8259::new(Recorder::default());
    pic.remap(239);
    assert_eq!(pic.irq_for(254), Some(15));
    assert_eq!(pic.irq_for(255), None);
}
