use staros_pc::arch::cpu::{interrupts_enabled, msr_halves, msr_value, Features};
use staros_pc::arch::gdt;
use staros_pc::arch::trampoline::{blob_len, params, PARAM_BASE};
use staros_pc::arch::usermode::{ring3_frame, USER_RFLAGS};

#[test]
fn features_count_only_where_their_leaf_exists() {
    let all = Features { smep: true, smap: true, gib_pages: true };
    assert_eq!(Features::detect(7, u32::MAX, 0x8000_0001, u32::MAX), all);
    let none = Features { smep: false, smap: false, gib_pages: false };
    assert_eq!(Features::detect(6, u32::MAX, 0x8000_0000, u32::MAX), none);
    assert_eq!(Features::detect(7, 0, 0x8000_0001, 0), none);
    assert_eq!(
        Features::detect(7, 1 << 7, 0x8000_0001, 1 << 26),
        Features { smep: true, smap: false, gib_pages: true }
    );
    assert_eq!(
        Features::detect(7, 1 << 20, 0, 0),
        Features { smep: false, smap: true, gib_pages: false }
    );
}

#[test]
fn the_interrupt_flag_is_one_bit() {
    assert!(interrupts_enabled(0x202));
    assert!(!interrupts_enabled(!0x200));
}

#[test]
fn a_register_survives_its_halves() {
    let value = 0x1234_5678_9ABC_DEF0;
    assert_eq!(msr_halves(value), (0x9ABC_DEF0, 0x1234_5678));
    assert_eq!(msr_value(0x9ABC_DEF0, 0x1234_5678), value);
}

#[test]
fn ring_three_is_entered_through_these_five_words() {
    assert_eq!(
        ring3_frame(0x40_0000, 0x7FFF_F000),
        [
            u64::from(gdt::USER_DATA),
            0x7FFF_F000,
            USER_RFLAGS,
            u64::from(gdt::USER_CODE),
            0x40_0000,
        ]
    );
}

#[test]
fn the_parameters_follow_each_other_at_the_end_of_the_page() {
    let block =
        [params::CR3, params::STACK_TOP, params::ENTRY, params::CPU_ID, params::ACK];
    assert_eq!(block[0], PARAM_BASE);
    for pair in block.windows(2) {
        assert_eq!(pair[1], pair[0] + 8);
    }
    assert!(params::ACK + 8 <= 4096);
    assert_eq!(blob_len(0x1000, 0x1234), 0x234);
}
