use staros_pc::arch::context::{
    plant, plant_at, CpuContext, OFF_R12, OFF_R13, OFF_R14, OFF_R15, OFF_RBP, OFF_RBX, OFF_RSP,
};

#[test]
fn the_offsets_are_the_layout() {
    let words = CpuContext { regs: [1, 2, 3, 4, 5, 6], rsp: 7 }.to_words();
    assert_eq!(words[OFF_RBX / 8], 1);
    assert_eq!(words[OFF_RBP / 8], 2);
    assert_eq!(words[OFF_R12 / 8], 3);
    assert_eq!(words[OFF_R13 / 8], 4);
    assert_eq!(words[OFF_R14 / 8], 5);
    assert_eq!(words[OFF_R15 / 8], 6);
    assert_eq!(words[OFF_RSP / 8], 7);
    assert_eq!((OFF_RBX, OFF_RBP, OFF_R12, OFF_R13), (0, 8, 16, 24));
    assert_eq!((OFF_R14, OFF_R15, OFF_RSP), (32, 40, 48));
    assert_eq!(core::mem::size_of::<CpuContext>(), 56);
}

#[test]
fn an_empty_context_is_all_zero() {
    let ctx = CpuContext::empty();
    assert_eq!(ctx.regs, [0; 6]);
    assert_eq!(ctx.rsp(), 0);
}

#[test]
fn the_trampoline_is_where_ret_will_look_for_it() {
    let mut stack = vec![0u64; 512];
    let base = stack.as_ptr() as u64;
    let rsp = plant(&mut stack, 0xDEAD_BEEF_0000_1000).expect("room for one word");
    assert!(rsp >= base && rsp < base + 512 * 8);
    let index = ((rsp - base) / 8) as usize;
    assert_eq!(stack[index], 0xDEAD_BEEF_0000_1000);
}

#[test]
fn the_stack_is_aligned_the_way_system_v_requires() {
    for len in [2usize, 3, 511, 512, 4096] {
        let mut stack = vec![0u64; len];
        let rsp = plant(&mut stack, 0x1000).expect("room for one word");
        assert_eq!(rsp % 16, 8, "len {len}: RSP before `ret` must be 8 mod 16");
        assert_eq!((rsp + 8) % 16, 0, "len {len}: RSP at the trampoline must be 16-aligned");
    }
}

#[test]
fn an_oddly_aligned_allocation_still_lands_aligned() {
    let mut backing = vec![0u64; 64];
    let base = backing.as_ptr() as u64;
    let skew = usize::from(base % 16 == 0);
    let stack = &mut backing[skew..];
    assert_eq!(stack.as_ptr() as u64 % 16, 8);
    let rsp = plant(stack, 0x2000).expect("room for one word");
    assert_eq!((rsp + 8) % 16, 0);
}

#[test]
fn the_frame_is_inside_the_allocation() {
    let mut stack = vec![0u64; 16];
    let base = stack.as_ptr() as u64;
    let end = base + 16 * 8;
    let rsp = plant(&mut stack, 0x3000).expect("room for one word");
    assert!(rsp + 8 <= end, "the planted word runs past the stack");
}

#[test]
fn a_stack_too_short_is_refused() {
    let mut nothing: Vec<u64> = Vec::new();
    assert_eq!(plant(&mut nothing, 0x4000), None);
}

#[test]
fn only_one_word_is_written() {
    let mut stack = vec![0u64; 64];
    let base = stack.as_ptr() as u64;
    let rsp = plant(&mut stack, 0x5000).expect("room for one word");
    let planted = ((rsp - base) / 8) as usize;
    for (i, word) in stack.iter().enumerate() {
        if i == planted {
            continue;
        }
        assert_eq!(*word, 0, "word {i} was written");
    }
}

#[test]
fn the_highest_suitable_word_is_taken() {
    let mut stack = [0u64; 4];
    // The words lie at 0x1000, 0x1008, 0x1010 and 0x1018.
    assert_eq!(plant_at(0x1000, &mut stack, 7), Some(0x1018));
    assert_eq!(stack, [0, 0, 0, 7]);
    let mut stack = [0u64; 3];
    assert_eq!(plant_at(0x1000, &mut stack, 7), Some(0x1008));
    assert_eq!(stack, [0, 7, 0]);
    // One word at a multiple of sixteen is no place for a return address.
    let mut stack = [0u64; 1];
    assert_eq!(plant_at(0x1000, &mut stack, 7), None);
    assert_eq!(stack, [0]);
    assert_eq!(plant_at(0x1008, &mut stack, 7), Some(0x1008));
    assert_eq!(stack, [7]);
}

#[test]
fn a_fresh_context_carries_its_entry() {
    let mut stack = vec![0u64; 8];
    let base = stack.as_ptr() as u64;
    let mut context = CpuContext { regs: [9; 6], rsp: 9 };
    assert!(context.init(0x1234, 0x5678, &mut stack));
    assert_eq!(context.regs, [0x1234, 0, 0, 0, 0, 0]);
    assert_eq!(context.rsp() % 16, 8);
    assert_eq!(stack[((context.rsp() - base) / 8) as usize], 0x5678);
}

#[test]
fn a_context_without_a_stack_is_not_touched() {
    let mut context = CpuContext { regs: [9; 6], rsp: 9 };
    assert!(!context.init(0x1234, 0x5678, &mut []));
    assert_eq!((context.regs, context.rsp), ([9; 6], 9));
}
