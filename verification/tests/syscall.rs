use staros_pc::arch::gdt;
use staros_pc::arch::syscall::{
    cpu_index, enabled, init_writes, is_canonical, is_enabled, star_value, syscall_cs, syscall_ss,
    sysret_cs, sysret_ss, PerCpu, PerCpuTable, Return, Returns, SyscallFrame, FMASK, IA32_FMASK,
    IA32_GS_BASE, IA32_KERNEL_GS_BASE, IA32_LSTAR, IA32_STAR, MAX_CPUS, OFF_CPU_INDEX,
    OFF_KERNEL_RSP, OFF_SCRATCH_RSP, RFLAGS_AC, RFLAGS_DF, RFLAGS_IF, RFLAGS_NT, RFLAGS_RF,
    RFLAGS_TF,
};

#[test]
fn star_derives_the_selectors_the_gdt_actually_has() {
    let star = star_value(gdt::KERNEL_CODE, gdt::USER_CODE32 & !3);
    assert_eq!(syscall_cs(star), gdt::KERNEL_CODE);
    assert_eq!(syscall_ss(star), gdt::KERNEL_DATA);
    assert_eq!(sysret_cs(star), gdt::USER_CODE);
    assert_eq!(sysret_ss(star), gdt::USER_DATA);
}

#[test]
fn the_gdt_is_laid_out_the_way_sysret_requires() {
    assert_eq!(gdt::KERNEL_DATA, gdt::KERNEL_CODE + 8);
    assert_eq!(gdt::USER_DATA & !3, (gdt::USER_CODE32 & !3) + 8);
    assert_eq!(gdt::USER_CODE & !3, (gdt::USER_CODE32 & !3) + 16);
}

#[test]
fn sysret_returns_to_ring_three() {
    let star = star_value(gdt::KERNEL_CODE, gdt::USER_CODE32 & !3);
    assert_eq!(sysret_cs(star) & 3, 3);
    assert_eq!(sysret_ss(star) & 3, 3);
}

#[test]
fn fmask_clears_the_flags_the_kernel_cannot_let_the_caller_choose() {
    assert_ne!(FMASK & RFLAGS_IF, 0, "an interrupt would land on the user stack");
    assert_ne!(FMASK & RFLAGS_TF, 0, "a user debugger would single-step the kernel");
    assert_ne!(FMASK & RFLAGS_AC, 0, "ring 3 could switch SMAP off for the kernel");
    assert_ne!(FMASK & RFLAGS_DF, 0);
    assert_ne!(FMASK & RFLAGS_NT, 0);
    assert_ne!(FMASK & RFLAGS_RF, 0);
}

#[test]
fn fmask_leaves_the_condition_codes_alone() {
    const CF: u64 = 1 << 0;
    const ZF: u64 = 1 << 6;
    const SF: u64 = 1 << 7;
    const OF: u64 = 1 << 11;
    assert_eq!(FMASK & (CF | ZF | SF | OF), 0);
}

#[test]
fn canonical_is_the_sign_extension_of_bit_47() {
    assert!(is_canonical(0));
    assert!(is_canonical(0x0000_7FFF_FFFF_FFFF), "last low-half address");
    assert!(!is_canonical(0x0000_8000_0000_0000), "first address in the hole");
    assert!(!is_canonical(0x7FFF_FFFF_FFFF_FFFF));
    assert!(!is_canonical(0xFFFF_7FFF_FFFF_FFFF), "last address in the hole");
    assert!(is_canonical(0xFFFF_8000_0000_0000), "first high-half address");
    assert!(is_canonical(0xFFFF_FFFF_FFFF_FFFF));
    assert!(is_canonical(0xFFFF_FFFF_8000_0000));
}

#[test]
fn every_user_address_is_canonical() {
    for address in [0x40_0000u64, 0x41_0000, 0x7FFF_F000, 0x0000_7FFF_FFFF_F000] {
        assert!(is_canonical(address), "{address:#x}");
    }
}

#[test]
fn the_frame_is_the_layout_the_stub_pushes() {
    assert_eq!(core::mem::size_of::<SyscallFrame>(), 80);
    let frame = SyscallFrame {
        rax: 1,
        rdi: 2,
        rsi: 3,
        rdx: 4,
        r10: 5,
        r8: 6,
        r9: 7,
        rip: 8,
        rflags: 9,
        user_rsp: 10,
    };
    let words = frame.to_words();
    assert_eq!(words[0 / 8], frame.rax);
    assert_eq!(words[8 / 8], frame.rdi);
    assert_eq!(words[16 / 8], frame.rsi);
    assert_eq!(words[24 / 8], frame.rdx);
    assert_eq!(words[32 / 8], frame.r10);
    assert_eq!(words[40 / 8], frame.r8);
    assert_eq!(words[48 / 8], frame.r9);
    assert_eq!(words[56 / 8], frame.rip);
    assert_eq!(words[64 / 8], frame.rflags);
    assert_eq!(words[72 / 8], frame.user_rsp);
    assert_eq!(SyscallFrame::from_words(&words), frame);
}

#[test]
fn the_frame_keeps_the_stack_aligned() {
    assert_eq!(core::mem::size_of::<SyscallFrame>() % 16, 0);
}

#[test]
fn the_percpu_offsets_are_the_layout() {
    let words = PerCpu { kernel_rsp: 1, scratch_rsp: 2, cpu_index: 3 }.to_words();
    assert_eq!(words[OFF_KERNEL_RSP / 8], 1);
    assert_eq!(words[OFF_SCRATCH_RSP / 8], 2);
    assert_eq!(words[OFF_CPU_INDEX / 8], 3);
    assert_eq!((OFF_KERNEL_RSP, OFF_SCRATCH_RSP, OFF_CPU_INDEX), (0, 8, 16));
}

#[test]
fn the_fast_path_is_the_zero_discriminant() {
    assert_eq!(Return::Sysret as u64, 0);
    assert_ne!(Return::Iret as u64, 0);
}

#[test]
fn a_frame_that_cannot_be_resumed_fast_is_counted() {
    let mut count = Returns::new();
    assert_eq!(count.way_back(0x40_0000), Return::Sysret);
    assert_eq!(count.iret_returns(), 0);
    assert_eq!(count.way_back(0x0000_8000_0000_0000), Return::Iret);
    assert_eq!(count.way_back(0x40_0000), Return::Sysret);
    assert_eq!(count.iret_returns(), 1);
    assert_eq!(Return::Iret.code(), Return::Iret as u64);
    assert_eq!(Return::Sysret.code(), Return::Sysret as u64);
}

#[test]
fn every_core_has_a_block_of_its_own() {
    let mut table = PerCpuTable::new();
    let a = table.claim(0);
    let b = table.claim(5);
    assert_eq!((a, b), (0, 5));
    table.set_kernel_stack(a, 0x1000);
    table.set_kernel_stack(b, 0x2000);
    assert_eq!(table.kernel_stack(a), 0x1000);
    assert_eq!(table.kernel_stack(b), 0x2000);
    assert_eq!(table.blocks[5].cpu_index, 5);
    assert_eq!(cpu_index(Some(table.blocks[5])), 5);
    assert_eq!(cpu_index(None), 0);
}

#[test]
fn a_core_beyond_the_last_block_shares_the_last() {
    let mut table = PerCpuTable::new();
    assert_eq!(table.claim(MAX_CPUS), MAX_CPUS - 1);
}

#[test]
fn the_mechanism_is_programmed_in_this_order() {
    let writes: Vec<(u32, u64)> = init_writes(0xFFFF_FFFF_8000_1000, 0xFFFF_FFFF_8010_0000)
        .iter()
        .map(|w| (w.msr, w.value))
        .collect();
    assert_eq!(
        writes,
        vec![
            (IA32_STAR, 0x0018_0008_0000_0000),
            (IA32_LSTAR, 0xFFFF_FFFF_8000_1000),
            (IA32_FMASK, FMASK),
            (IA32_GS_BASE, 0),
            (IA32_KERNEL_GS_BASE, 0xFFFF_FFFF_8010_0000),
        ],
    );
}

#[test]
fn enabling_sets_one_bit() {
    assert_eq!(enabled(0xD00), 0xD01);
    assert_eq!(enabled(0xD01), 0xD01);
    assert!(is_enabled(0xD01));
    assert!(!is_enabled(0xD00));
}

#[test]
fn any_pair_of_bases_comes_back_out() {
    let star = star_value(0x1238, 0xFFE8);
    assert_eq!(syscall_cs(star), 0x1238);
    assert_eq!(syscall_ss(star), 0x1240);
    assert_eq!(sysret_cs(star), 0xFFFB);
    assert_eq!(sysret_ss(star), 0xFFF3);
}
