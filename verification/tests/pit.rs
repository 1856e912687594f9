use staros_pc::arch::pit::{
    divisor_for, hz_for, Pit, BASE_HZ, CHANNEL0_DATA, CMD_CHANNEL0_RATE_LOHI, COMMAND, MAX_DIVISOR,
};
use staros_pc::arch::port::PortIo;

#[derive(Default)]
struct Recorder {
    writes: Vec<(u16, u8)>,
}

impl PortIo for Recorder {
    fn write(&mut self, port: u16, value: u8) {
        self.writes.push((port, value));
    }
    fn read(&mut self, _port: u16) -> u8 {
        0
    }
    fn wait(&mut self) {}
}

#[test]
fn the_divisor_is_the_crystal_over_the_rate() {
    assert_eq!(divisor_for(1000), 1193);
    assert_eq!(divisor_for(100), 11931);
    assert_eq!(divisor_for(18), MAX_DIVISOR);
    assert_eq!(divisor_for(1), MAX_DIVISOR);
}

#[test]
fn a_rate_the_crystal_cannot_reach_clamps_instead_of_wrapping() {
    assert_eq!(divisor_for(BASE_HZ * 2), 1);
    assert_eq!(divisor_for(BASE_HZ), 1);
    assert_eq!(divisor_for(0), MAX_DIVISOR);
}

#[test]
fn the_rate_reported_back_is_the_one_that_will_happen() {
    assert_eq!(hz_for(divisor_for(1000)), 1000);
    assert_eq!(hz_for(divisor_for(100)), 100);
    assert_eq!(hz_for(divisor_for(60)), 60);
    assert_eq!(hz_for(MAX_DIVISOR), 18);
}

#[test]
fn programming_is_a_command_then_two_halves_of_the_divisor() {
    let mut pit = Pit::new(Recorder::default());
    let actual = pit.start(1000);
    assert_eq!(actual, 1000);
    assert_eq!(
        pit.io.writes,
        vec![
            (COMMAND, 0b0011_0100),
            (CHANNEL0_DATA, 1193u16 as u8),
            (CHANNEL0_DATA, (1193u16 >> 8) as u8),
        ],
    );
}

#[test]
fn the_largest_divisor_goes_out_as_zero() {
    let mut pit = Pit::new(Recorder::default());
    pit.start(1);
    assert_eq!(pit.io.writes[1], (CHANNEL0_DATA, 0));
    assert_eq!(pit.io.writes[2], (CHANNEL0_DATA, 0));
}

#[test]
fn the_command_selects_a_rate_generator_not_a_one_shot() {
    assert_eq!((CMD_CHANNEL0_RATE_LOHI >> 1) & 0b111, 2);
    assert_eq!(CMD_CHANNEL0_RATE_LOHI >> 6, 0, "not channel 0");
    assert_eq!((CMD_CHANNEL0_RATE_LOHI >> 4) & 0b11, 3, "not lobyte/hibyte access");
    assert_eq!(CMD_CHANNEL0_RATE_LOHI & 1, 0, "BCD counting, not binary");
}

#[test]
fn stopping_makes_the_channel_count_once() {
    let mut pit = Pit::new(Recorder::default());
    pit.stop();
    assert_eq!(
        pit.io.writes,
        vec![(COMMAND, 0b0011_0000), (CHANNEL0_DATA, 0), (CHANNEL0_DATA, 0)],
    );
}

#[test]
fn the_channel_is_never_slower_than_was_asked() {
    for hz in [1, 18, 19, 60, 100, 1000, 44_100, BASE_HZ] {
        assert!(hz_for(divisor_for(hz)) >= hz, "{hz}");
    }
    assert_eq!(hz_for(divisor_for(u32::MAX)), BASE_HZ);
    assert_eq!(hz_for(0), 18);
}
