use std::mem::size_of;

use staros_pc::arch::gdt::{
    segment, table, tss_descriptor, DescriptorTablePointer, Tss, IST_DOUBLE_FAULT,
    IST_MACHINE_CHECK, IST_NMI, KERNEL_CODE, KERNEL_CODE_DESC, KERNEL_DATA, KERNEL_DATA_DESC,
    TSS_LEN, TSS_SELECTOR, USER_CODE, USER_CODE32, USER_CODE32_DESC, USER_CODE_DESC, USER_DATA,
    USER_DATA_DESC,
};

#[test]
fn kernel_descriptors_match_the_architecture_reference() {
    assert_eq!(KERNEL_CODE_DESC, 0x00AF_9A00_0000_FFFF);
    assert_eq!(KERNEL_DATA_DESC, 0x00CF_9200_0000_FFFF);
}

#[test]
fn user_descriptors_carry_dpl_3() {
    assert_eq!(USER_CODE32_DESC, 0x00CF_FA00_0000_FFFF);
    assert_eq!(USER_DATA_DESC, 0x00CF_F200_0000_FFFF);
    assert_eq!(USER_CODE_DESC, 0x00AF_FA00_0000_FFFF);
    for desc in [USER_CODE32_DESC, USER_DATA_DESC, USER_CODE_DESC] {
        assert_eq!((desc >> 45) & 0b11, 3, "{desc:#x} is not DPL 3");
    }
}

#[test]
fn code_and_data_differ_only_where_they_should() {
    assert_eq!((KERNEL_CODE_DESC >> 53) & 1, 1, "kernel code is not 64-bit");
    assert_eq!((KERNEL_CODE_DESC >> 54) & 1, 0, "kernel code has D/B set with L");
    assert_eq!((KERNEL_DATA_DESC >> 53) & 1, 0, "kernel data has L set");
}

#[test]
fn selectors_index_the_slots_the_descriptors_occupy() {
    assert_eq!(KERNEL_CODE >> 3, 1);
    assert_eq!(KERNEL_DATA >> 3, 2);
    assert_eq!(KERNEL_DATA, KERNEL_CODE + 8, "SYSCALL requires SS = CS + 8");
    assert_eq!(USER_CODE32 & !3, 0x18);
    assert_eq!(USER_DATA & !3, (USER_CODE32 & !3) + 8, "SYSRET requires SS = base + 8");
    assert_eq!(USER_CODE & !3, (USER_CODE32 & !3) + 16, "SYSRET requires CS = base + 16");
    assert_eq!(USER_DATA & 3, 3);
    assert_eq!(USER_CODE & 3, 3);
    assert_eq!(TSS_SELECTOR >> 3, 6);
}

#[test]
fn the_tss_is_the_size_the_architecture_says() {
    assert_eq!(size_of::<Tss>(), 104);
}

#[test]
fn tss_descriptor_scatters_the_base_the_way_the_cpu_reassembles_it() {
    let (low, high) = tss_descriptor(0x1122_3344_5566_7788, 103);
    assert_eq!(low & 0xFFFF, 103, "limit 15:0");
    assert_eq!((low >> 16) & 0xFF_FFFF, 0x0066_7788, "base 23:0");
    assert_eq!((low >> 40) & 0xFF, 0x89, "type: available 64-bit TSS, present");
    assert_eq!((low >> 48) & 0xF, 0, "limit 19:16");
    assert_eq!((low >> 56) & 0xFF, 0x55, "base 31:24");
    assert_eq!(high, 0x1122_3344, "base 63:32");
}

#[test]
fn tss_descriptor_is_available_not_busy() {
    let (low, _) = tss_descriptor(0, 103);
    assert_eq!((low >> 40) & 0xF, 0x9);
}

#[test]
fn ist_slots_are_distinct_and_one_based() {
    let slots = [IST_DOUBLE_FAULT, IST_NMI, IST_MACHINE_CHECK];
    for slot in slots {
        assert!((1..=7).contains(&slot), "IST slot {slot} is not in 1..=7");
    }
    assert_eq!(slots.len(), {
        let mut seen = slots;
        seen.sort_unstable();
        seen.windows(2).filter(|w| w[0] != w[1]).count() + 1
    });
}

#[test]
fn the_descriptors_are_assembled_from_their_fields() {
    assert_eq!(segment(0x9A, 0xA), KERNEL_CODE_DESC);
    assert_eq!(segment(0x92, 0xC), KERNEL_DATA_DESC);
    assert_eq!(segment(0xFA, 0xC), USER_CODE32_DESC);
    assert_eq!(segment(0xF2, 0xC), USER_DATA_DESC);
    assert_eq!(segment(0xFA, 0xA), USER_CODE_DESC);
}

#[test]
fn the_table_holds_every_descriptor_at_its_selector() {
    let slots = table(0xFFFF_FFFF_8012_3400);
    assert_eq!(slots[0], 0);
    assert_eq!(slots[usize::from(KERNEL_CODE >> 3)], KERNEL_CODE_DESC);
    assert_eq!(slots[usize::from(KERNEL_DATA >> 3)], KERNEL_DATA_DESC);
    assert_eq!(slots[usize::from(USER_CODE32 >> 3)], USER_CODE32_DESC);
    assert_eq!(slots[usize::from(USER_DATA >> 3)], USER_DATA_DESC);
    assert_eq!(slots[usize::from(USER_CODE >> 3)], USER_CODE_DESC);
    let (low, high) = tss_descriptor(0xFFFF_FFFF_8012_3400, 103);
    assert_eq!(slots[6], low);
    assert_eq!(slots[7], high);
}

#[test]
fn a_table_is_described_by_its_last_byte() {
    let pointer = DescriptorTablePointer::to_table(0x1000, 64);
    assert_eq!((pointer.base, pointer.limit), (0x1000, 63));
}

#[test]
fn a_task_state_segment_has_no_io_bitmap() {
    assert_eq!(usize::from(Tss::with_stacks(1, 2, 3).iomap_base), TSS_LEN);
    assert_eq!(Tss::new().iomap_base, 0);
    assert_eq!(Tss::new().to_words().len() * 4, TSS_LEN);
}

#[test]
fn the_interrupt_stacks_go_where_their_slots_are() {
    let tss = Tss::with_stacks(0x1_0000_0010, 0x20, 0x30);
    assert_eq!(tss.interrupt_stacks[usize::from(IST_DOUBLE_FAULT) - 1], 0x1_0000_0010);
    assert_eq!(tss.interrupt_stacks[usize::from(IST_NMI) - 1], 0x20);
    assert_eq!(tss.interrupt_stacks[usize::from(IST_MACHINE_CHECK) - 1], 0x30);
    // The first interrupt stack is 36 bytes into the segment.
    let words = tss.to_words();
    assert_eq!((words[9], words[10]), (0x10, 1));
    assert_eq!((words[11], words[12]), (0x20, 0));
}
