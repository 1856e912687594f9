use staros_pc::arch::port::{EmptyBus, PortIo};
use staros_pc::arch::serial::{Uart16550, COM1, MAX_SPINS, PROBE};

/// A port space in which every read gives the next prepared byte, and then the
/// last one again.
struct Script {
    answers: Vec<u8>,
    reads: Vec<u16>,
    writes: Vec<(u16, u8)>,
}

impl Script {
    fn new(answers: &[u8]) -> Script {
        Script { answers: answers.to_vec(), reads: Vec::new(), writes: Vec::new() }
    }
}

impl PortIo for Script {
    fn write(&mut self, port: u16, value: u8) {
        self.writes.push((port, value));
    }
    fn read(&mut self, port: u16) -> u8 {
        let i = self.reads.len().min(self.answers.len() - 1);
        self.reads.push(port);
        self.answers[i]
    }
    fn wait(&mut self) {}
}

#[test]
fn a_port_that_echoes_the_probe_is_there() {
    let mut io = Script::new(&[PROBE]);
    assert!(Uart16550::com1().init(&mut io));
    assert_eq!(
        io.writes,
        vec![
            (COM1 + 1, 0x00),
            (COM1 + 3, 0x80),
            (COM1, 0x01),
            (COM1 + 1, 0x00),
            (COM1 + 3, 0x03),
            (COM1 + 2, 0xC7),
            (COM1 + 4, 0x1E),
            (COM1, 0xAE),
            (COM1 + 4, 0x0B),
        ],
    );
    assert_eq!(io.reads, vec![COM1]);
}

#[test]
fn an_empty_port_is_noticed_and_left_configured() {
    let mut io = Script::new(&[0xFF]);
    assert!(!Uart16550::at(0x2F8).init(&mut io));
    assert_eq!(io.writes.last(), Some(&(0x2FC, 0x0B)));
}

#[test]
fn a_byte_waits_for_the_transmitter() {
    let mut io = Script::new(&[0x00, 0xDF, 0x20]);
    Uart16550::com1().write_byte(&mut io, 0x41);
    assert_eq!(io.reads, vec![COM1 + 5; 3]);
    assert_eq!(io.writes, vec![(COM1, 0x41)]);
    assert!(Uart16550::com1().can_send(&mut io));
    assert!(!Uart16550::com1().can_send(&mut Script::new(&[0xDF])));
}

#[test]
fn a_transmitter_that_never_drains_does_not_stop_the_machine() {
    let mut io = Script::new(&[0x00]);
    Uart16550::com1().write_byte(&mut io, 0x41);
    assert_eq!(io.reads.len(), MAX_SPINS as usize + 1);
    assert_eq!(io.writes, vec![(COM1, 0x41)]);
}

#[test]
fn an_empty_bus_has_no_serial_port() {
    let mut bus = EmptyBus::new();
    assert!(!Uart16550::com1().init(&mut bus));
    // Every line is high, so a byte is sent at once, and lost.
    assert!(Uart16550::com1().can_send(&mut bus));
    Uart16550::com1().write_byte(&mut bus, 0x41);
}

#[test]
fn a_port_at_the_very_end_can_be_probed() {
    let mut io = Script::new(&[PROBE]);
    assert!(Uart16550::at(0xFFFB).init(&mut io));
    assert_eq!(io.writes.last(), Some(&(0xFFFF, 0x0B)));
}
