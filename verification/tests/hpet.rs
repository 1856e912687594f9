use staros_pc::arch::hpet::{
    Capabilities, Hpet, CONFIG_ENABLE, CONFIG_LEGACY_ROUTING, MAX_PERIOD_FS, REG_CAPABILITIES,
    REG_CONFIG, REG_COUNTER,
};
use staros_pc::arch::mmio::{Mmio64, NoDevice};

#[derive(Default)]
struct Recorder {
    writes: Vec<(usize, u64)>,
    state: std::collections::HashMap<usize, u64>,
}

impl Mmio64 for Recorder {
    fn read64(&mut self, offset: usize) -> u64 {
        self.state.get(&offset).copied().unwrap_or(0)
    }
    fn write64(&mut self, offset: usize, value: u64) {
        self.writes.push((offset, value));
        self.state.insert(offset, value);
    }
}

const QEMU_CAPS: u64 = (10_000_000u64 << 32) | (1 << 13) | (2 << 8) | 0x01;

fn hpet() -> Hpet<Recorder> {
    let mut regs = Recorder::default();
    regs.state.insert(REG_CAPABILITIES, QEMU_CAPS);
    Hpet::new(regs).unwrap()
}

#[test]
fn the_period_is_in_the_upper_half_of_the_register() {
    let caps = Capabilities::from_bits(QEMU_CAPS).unwrap();
    assert_eq!(caps.period_fs, 10_000_000);
    assert_eq!(caps.frequency_hz(), 100_000_000, "QEMU's HPET is 100 MHz");
    assert_eq!(Capabilities::from_bits(QEMU_CAPS & 0xFFFF_FFFF), None);
}

#[test]
fn an_impossible_period_is_refused_rather_than_divided_by() {
    assert_eq!(Capabilities::from_bits(0), None);
    assert!(Capabilities::from_bits((MAX_PERIOD_FS as u64) << 32).is_some());
    assert_eq!(Capabilities::from_bits(((MAX_PERIOD_FS as u64) + 1) << 32), None);
}

#[test]
fn the_timer_count_is_one_more_than_the_field() {
    let caps = Capabilities::from_bits(QEMU_CAPS).unwrap();
    assert_eq!(caps.timers, 3, "field holds 2");
    let one = Capabilities::from_bits((10_000_000u64 << 32) | (0 << 8)).unwrap();
    assert_eq!(one.timers, 1);
    let most = Capabilities::from_bits((10_000_000u64 << 32) | (31 << 8)).unwrap();
    assert_eq!(most.timers, 32);
}

#[test]
fn ticks_and_nanoseconds_round_trip_at_the_real_frequency() {
    let caps = Capabilities::from_bits(QEMU_CAPS).unwrap();
    assert_eq!(caps.ticks_to_ns(100), 1_000);
    assert_eq!(caps.ns_to_ticks(1_000), 100);
    assert_eq!(caps.ns_to_ticks(1_000_000_000), 100_000_000);
    assert_eq!(caps.ticks_to_ns(100_000_000), 1_000_000_000);
}

#[test]
fn the_conversion_does_not_overflow_at_realistic_uptimes() {
    let caps = Capabilities::from_bits(QEMU_CAPS).unwrap();
    let a_day = 86_400u64 * caps.frequency_hz();
    assert_eq!(caps.ticks_to_ns(a_day), 86_400_000_000_000);
    let fast = Capabilities::from_bits(1u64 << 32).unwrap();
    assert_eq!(fast.frequency_hz(), 1_000_000_000_000_000);
    assert_eq!(fast.ticks_to_ns(u64::MAX / 2), u64::MAX / 2 / 1_000_000);
}

#[test]
fn starting_enables_the_counter_and_clears_legacy_routing() {
    let mut h = hpet();
    h.regs.state.insert(REG_CONFIG, CONFIG_LEGACY_ROUTING);
    h.start();
    assert_eq!(h.regs.writes, vec![(REG_CONFIG, CONFIG_ENABLE)]);
    assert!(h.is_running());
    h.regs.writes.clear();
    h.stop();
    assert_eq!(h.regs.writes, vec![(REG_CONFIG, 0)]);
    assert!(!h.is_running());
}

#[test]
fn a_64_bit_counter_subtracts_across_the_whole_range() {
    let h = hpet();
    assert!(h.capabilities().counter_64bit);
    assert_eq!(h.elapsed(1000, 3000), 2000);
    assert_eq!(h.elapsed(u64::MAX, 4), 5);
}

#[test]
fn a_32_bit_counter_wraps_where_it_actually_wraps() {
    let mut regs = Recorder::default();
    regs.state.insert(REG_CAPABILITIES, QEMU_CAPS & !(1 << 13));
    let h = Hpet::new(regs).unwrap();
    assert!(!h.capabilities().counter_64bit);
    assert_eq!(h.elapsed(0xFFFF_FF00, 0x0000_0100), 0x200);
    assert_eq!(h.elapsed(0xDEAD_0000_FFFF_FF00, 0x0000_0100), 0x200);
}

#[test]
fn reading_the_counter_touches_only_the_counter() {
    let mut h = hpet();
    h.regs.state.insert(REG_COUNTER, 0x1234_5678_9ABC);
    assert_eq!(h.now(), 0x1234_5678_9ABC);
    assert!(h.regs.writes.is_empty(), "reading the clock changed it");
}

#[test]
fn the_registers_are_where_the_specification_puts_them() {
    assert_eq!(REG_CAPABILITIES, 0x000);
    assert_eq!(REG_CONFIG, 0x010);
    assert_eq!(REG_COUNTER, 0x0F0);
    for reg in [REG_CAPABILITIES, REG_CONFIG, REG_COUNTER] {
        assert_eq!(reg % 8, 0, "{reg:#x} is not 8-byte aligned");
    }
}

#[test]
fn a_wait_is_over_when_its_ticks_have_passed() {
    let mut h = hpet();
    h.regs.state.insert(REG_COUNTER, 1_000);
    let spin = h.begin_spin(1_000);
    assert_eq!((spin.start, spin.target), (1_000, 100));
    h.regs.state.insert(REG_COUNTER, 1_099);
    assert!(!h.spin_is_over(&spin));
    h.regs.state.insert(REG_COUNTER, 1_100);
    assert!(h.spin_is_over(&spin));
}

#[test]
fn a_capability_register_is_decoded_field_by_field() {
    let caps = Capabilities::from_bits(0x0098_9680_8086_A201).unwrap();
    assert_eq!(caps.period_fs, 10_000_000);
    assert_eq!(caps.vendor, 0x8086);
    assert_eq!(caps.timers, 3);
    assert!(caps.counter_64bit);
    assert_eq!(caps.revision, 1);
}

#[test]
fn a_timer_that_does_not_decode_is_not_wrapped() {
    assert!(Hpet::new(Recorder::default()).is_none());
}

#[test]
fn an_interval_is_reported_in_nanoseconds() {
    let h = hpet();
    assert_eq!(h.elapsed_ns(u64::MAX, 4), 50);
}

#[test]
fn starting_leaves_the_other_configuration_bits_alone() {
    let mut h = hpet();
    h.regs.state.insert(REG_CONFIG, 0xABCD_0000_0000_00F2);
    h.start();
    assert_eq!(h.regs.writes, vec![(REG_CONFIG, 0xABCD_0000_0000_00F1)]);
}

#[test]
fn registers_that_no_device_answers_for_are_no_timer() {
    assert!(Hpet::new(NoDevice::new()).is_none());
}

#[test]
fn less_than_a_tick_is_lost_in_femtoseconds() {
    let caps = Capabilities::from_bits(((69_841_279u64) << 32) | (1 << 13)).unwrap();
    for ns in [1u64, 69, 70, 1_000, 999_999_999] {
        let fs = u128::from(caps.ns_to_ticks(ns)) * u128::from(caps.period_fs);
        let asked = u128::from(ns) * 1_000_000;
        assert!(fs <= asked && asked < fs + u128::from(caps.period_fs));
    }
}

#[test]
fn a_narrow_counter_is_a_timer_too() {
    let mut regs = Recorder::default();
    regs.state.insert(REG_CAPABILITIES, QEMU_CAPS & !(1 << 13));
    let hpet = Hpet::new(regs).unwrap();
    assert!(!hpet.capabilities().counter_64bit);
    assert!(hpet.regs.writes.is_empty());
}
