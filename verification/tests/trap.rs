use std::mem::size_of;

use staros_pc::arch::trap::{pushes_error_code, vector_name, PageFaultCause, TrapFrame, FRAME_WORDS};

#[test]
fn the_frame_is_the_layout_the_stubs_build() {
    assert_eq!(size_of::<TrapFrame>(), 22 * 8);
    assert_eq!(size_of::<TrapFrame>() % 16, 0, "the call in the stub would be misaligned");
}

#[test]
fn frame_fields_sit_where_the_pushes_put_them() {
    let mut words = [0u64; 22];
    for (i, word) in words.iter_mut().enumerate() {
        *word = i as u64;
    }
    let f = TrapFrame::from_words(&words);
    assert_eq!(f.rax, 0, "rax is pushed last, so it is at the lowest address");
    assert_eq!(f.r15, 14);
    assert_eq!(f.vector, 15);
    assert_eq!(f.error_code, 16);
    assert_eq!(f.rip, 17, "the CPU's frame starts here");
    assert_eq!(f.ss, 21);
    assert_eq!(f.to_words(), words);
}

#[test]
fn error_code_vectors_are_the_architecture_list() {
    for v in 0u8..=255 {
        let expected = matches!(v, 8 | 10 | 11 | 12 | 13 | 14 | 17 | 21 | 29 | 30);
        assert_eq!(pushes_error_code(v), expected, "vector {v}");
    }
}

#[test]
fn every_vector_has_a_name() {
    for v in 0u64..256 {
        assert!(!vector_name(v).is_empty(), "vector {v}");
    }
    assert_eq!(vector_name(14), "#PF page fault");
    assert_eq!(vector_name(8), "#DF double fault");
    assert_eq!(vector_name(255), "external interrupt");
}

#[test]
fn page_fault_bits_decode_to_the_right_bits() {
    let c = PageFaultCause::from_error_code(0b1_1111);
    assert!(c.protection_violation && c.write && c.user && c.reserved_bit && c.instruction_fetch);
    let c = PageFaultCause::from_error_code(0);
    assert!(!c.protection_violation && !c.write && !c.user);
    let c = PageFaultCause::from_error_code(0xFFFF_FFFF_FFFF_FFE0);
    assert_eq!(c, PageFaultCause::from_error_code(0));
}

#[test]
fn page_fault_summaries_distinguish_the_cases_that_matter() {
    let read_unmapped = PageFaultCause::from_error_code(0);
    assert_eq!(read_unmapped.as_str(), "read from an unmapped page");
    let write_unmapped = PageFaultCause::from_error_code(0b10);
    assert_eq!(write_unmapped.as_str(), "write to an unmapped page");
    let nx = PageFaultCause::from_error_code(0b1_0001);
    assert_eq!(nx.as_str(), "instruction fetch from a no-execute page");
    let ro = PageFaultCause::from_error_code(0b11);
    assert_eq!(ro.as_str(), "write to a read-only page");
    let reserved = PageFaultCause::from_error_code(0b1_1111);
    assert_eq!(reserved.as_str(), "reserved bit set in a page-table entry");
}

#[test]
fn ring_is_read_from_the_bottom_of_cs() {
    let mut f = TrapFrame {
        rax: 0, rbx: 0, rcx: 0, rdx: 0, rsi: 0, rdi: 0, rbp: 0,
        r8: 0, r9: 0, r10: 0, r11: 0, r12: 0, r13: 0, r14: 0, r15: 0,
        vector: 0, error_code: 0, rip: 0, cs: 0x08, rflags: 0, rsp: 0, ss: 0,
    };
    assert!(!f.from_user());
    f.cs = 0x28 | 3;
    assert!(f.from_user());
}

#[test]
fn every_cause_has_its_own_text() {
    let texts = [
        (0b0_0000, "read from an unmapped page"),
        (0b1_0000, "instruction fetch from an unmapped page"),
        (0b0_0001, "supervisor read of a page it may not read"),
        (0b0_0101, "user read of a supervisor page"),
    ];
    for (code, text) in texts {
        assert_eq!(PageFaultCause::from_error_code(code).as_str(), text);
    }
}

#[test]
fn a_frame_is_as_many_words_as_it_has_fields() {
    assert_eq!(FRAME_WORDS * 8, size_of::<TrapFrame>());
}
