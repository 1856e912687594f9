use staros_pc::bootinfo::{BootInfo, Framebuffer, PixelFormat, KERNEL_VMA, PHYS_MAP_BASE};
use staros_pc::elf64;
use staros_pc::loader::boot::{
    exit_step, find_rsdp, framebuffer_window, hand_off, load_kernel, locate_framebuffer,
    map_physical, mapped_extent, memory_map_size, open_kernel, segment_rights, size_buffers,
    ConfigurationTable, ExitStep, GopAnswer, GopReport, LoadError, EXIT_ATTEMPTS, GIB, MIN_MAPPED,
};
use staros_pc::loader::efi::{
    acpi1_guid, acpi2_guid, gop_format, gop_guid, GopModeInfo, BUFFER_TOO_SMALL, ERROR_BIT,
    INVALID_PARAMETER, SUCCESS,
};
use staros_pc::loader::fs::Loaded;
use staros_pc::loader::pages::Error;
use staros_pc::loader::paging::{MapError, PageTables, Rights, SIZE_2M, TABLE_ENTRIES};

fn frames(n: u64) -> Vec<u64> {
    (1..=n).map(|k| 0x100_0000 + k * 0x1000).collect()
}

/// The physical address and the raw entry of the 4 KiB page that holds `v`.
fn small_page(tables: &PageTables, v: u64) -> Option<(u64, u64)> {
    let mut table = 0;
    for level in [3, 2, 1, 0] {
        let span = 0x1000u64 << (9 * level);
        let entry = tables.entry(table, (v / span) as usize % TABLE_ENTRIES)?;
        if entry & 1 == 0 {
            return None;
        }
        let address = entry & 0x000F_FFFF_FFFF_F000;
        if level == 0 || entry & 0x80 != 0 {
            return Some((address + v % span, entry));
        }
        table = (0..tables.table_count()).find(|&t| tables.frame(t) == Some(address))?;
    }
    None
}

/// A program header: flags, file offset, address, bytes in the file and in memory.
type Header = (u32, u64, u64, u64, u64);

fn image(segments: &[Header], tail: &[u8]) -> Vec<u8> {
    let mut b = vec![0u8; 64];
    b[0..4].copy_from_slice(&[0x7F, b'E', b'L', b'F']);
    b[4] = 2;
    b[5] = 1;
    b[6] = 1;
    b[16..18].copy_from_slice(&2u16.to_le_bytes());
    b[18..20].copy_from_slice(&62u16.to_le_bytes());
    b[20..24].copy_from_slice(&1u32.to_le_bytes());
    b[24..32].copy_from_slice(&(KERNEL_VMA + 0x10).to_le_bytes());
    b[32..40].copy_from_slice(&64u64.to_le_bytes());
    b[54..56].copy_from_slice(&56u16.to_le_bytes());
    b[56..58].copy_from_slice(&(segments.len() as u16).to_le_bytes());
    for &(flags, offset, vaddr, filesz, memsz) in segments {
        let mut h = vec![0u8; 56];
        h[0..4].copy_from_slice(&1u32.to_le_bytes());
        h[4..8].copy_from_slice(&flags.to_le_bytes());
        h[8..16].copy_from_slice(&offset.to_le_bytes());
        h[16..24].copy_from_slice(&vaddr.to_le_bytes());
        h[32..40].copy_from_slice(&filesz.to_le_bytes());
        h[40..48].copy_from_slice(&memsz.to_le_bytes());
        b.extend(h);
    }
    b.extend_from_slice(tail);
    b
}

/// Two segments: code of one page, and data with a tail of zeroes.
fn kernel() -> Vec<u8> {
    let at = 64 + 2 * 56;
    image(
        &[(5, at, KERNEL_VMA, 4, 4), (6, at + 4, KERNEL_VMA + 0x1000, 3, 0x1001)],
        &[1, 2, 3, 4, 5, 6, 7],
    )
}

#[test]
fn the_newer_root_pointer_wins_wherever_it_stands() {
    let old = ConfigurationTable { guid: acpi1_guid(), table: 0x1000 };
    let older = ConfigurationTable { guid: acpi1_guid(), table: 0x1800 };
    let new = ConfigurationTable { guid: acpi2_guid(), table: 0x2000 };
    let newer = ConfigurationTable { guid: acpi2_guid(), table: 0x2800 };
    let other = ConfigurationTable { guid: gop_guid(), table: 0x3000 };
    assert_eq!(find_rsdp(&[]), 0);
    assert_eq!(find_rsdp(&[other]), 0);
    assert_eq!(find_rsdp(&[old, other]), 0x1000);
    assert_eq!(find_rsdp(&[old, older]), 0x1800);
    assert_eq!(find_rsdp(&[old, new, newer, older]), 0x2000);
}

fn mode(pixel_format: u32, width: u32, per_line: u32) -> GopAnswer {
    GopAnswer::Mode {
        framebuffer_base: 0x8000_0000,
        info: GopModeInfo {
            version: 0,
            horizontal_resolution: width,
            vertical_resolution: 600,
            pixel_format,
            pixel_information: [0; 4],
            pixels_per_scan_line: per_line,
        },
    }
}

#[test]
fn a_display_is_described_by_its_mode() {
    let (fb, report) = locate_framebuffer(&mode(gop_format::BGR, 800, 832));
    assert_eq!(report, GopReport::Found);
    assert_eq!(fb, Framebuffer::new(0x8000_0000, 800, 600, 3328, PixelFormat::Bgrx8888));
    let (fb, report) = locate_framebuffer(&mode(gop_format::RGB, 800, 800));
    assert_eq!(report, GopReport::Found);
    assert_eq!(fb.format, PixelFormat::Rgbx8888);
}

#[test]
fn a_display_that_cannot_be_drawn_on_is_reported_absent() {
    let cases = [
        (GopAnswer::NoProtocol, GopReport::NoProtocol),
        (GopAnswer::NoMode, GopReport::NoMode),
        (mode(gop_format::BIT_MASK, 800, 800), GopReport::UnsupportedFormat),
        (mode(gop_format::BLT_ONLY, 800, 800), GopReport::UnsupportedFormat),
        (mode(gop_format::BGR, 800, 799), GopReport::Inconsistent),
    ];
    for (answer, expected) in cases {
        let (fb, report) = locate_framebuffer(&answer);
        assert_eq!(report, expected);
        assert_eq!(fb, Framebuffer::new(0, 0, 0, 0, PixelFormat::Bgrx8888));
        assert!(!fb.is_sane());
    }
}

#[test]
fn asking_for_the_size_of_the_map_is_meant_to_fail() {
    assert_eq!(memory_map_size(BUFFER_TOO_SMALL, 4800, 48), Ok((4800, 48)));
    assert_eq!(memory_map_size(SUCCESS, 0, 48), Ok((0, 48)));
    assert_eq!(
        memory_map_size(INVALID_PARAMETER, 4800, 48),
        Err(Error { stage: "GetMemoryMap (size query)", status: INVALID_PARAMETER })
    );
    assert_eq!(
        memory_map_size(BUFFER_TOO_SMALL, 4800, 0),
        Err(Error { stage: "firmware reported a zero descriptor size", status: 0 })
    );
}

fn descriptor(ty: u32, phys: u64, pages: u64) -> Vec<u8> {
    let mut d = vec![0u8; 40];
    d[0..4].copy_from_slice(&ty.to_le_bytes());
    d[8..16].copy_from_slice(&phys.to_le_bytes());
    d[24..32].copy_from_slice(&pages.to_le_bytes());
    d
}

#[test]
fn at_least_four_gibibytes_are_mapped() {
    assert_eq!(mapped_extent(&descriptor(7, 0, 16), 40), Ok(MIN_MAPPED));
    assert_eq!(mapped_extent(&descriptor(7, 5 * GIB, 1), 40), Ok(6 * GIB));
    // What is no memory does not count.
    assert_eq!(mapped_extent(&descriptor(11, 5 * GIB, 1), 40), Ok(MIN_MAPPED));
    assert_eq!(
        mapped_extent(&descriptor(7, 0, 16), 39),
        Err(Error { stage: "firmware reported an impossible descriptor size", status: 0 })
    );
}

#[test]
fn only_a_framebuffer_above_what_is_mapped_needs_a_window() {
    let fb = Framebuffer::new(MIN_MAPPED + 0x800, 16, 16, 64, PixelFormat::Bgrx8888);
    assert_eq!(framebuffer_window(&fb, MIN_MAPPED), Some((MIN_MAPPED, 0x1000)));
    assert_eq!(framebuffer_window(&fb, 2 * MIN_MAPPED), None);
    let fb = Framebuffer::new(MIN_MAPPED + 0xF00, 16, 16, 64, PixelFormat::Bgrx8888);
    assert_eq!(framebuffer_window(&fb, MIN_MAPPED), Some((MIN_MAPPED, 0x2000)));
    let none = Framebuffer::new(0, 0, 0, 0, PixelFormat::Bgrx8888);
    assert_eq!(framebuffer_window(&none, 0), None);
}

#[test]
fn the_buffers_leave_room_for_the_map_to_grow() {
    let b = size_buffers(4800, 48);
    // 4800 + 32 * 48 bytes are 6336, in two pages; those hold 170 descriptors.
    assert_eq!((b.map_pages, b.map_capacity), (2, 8192));
    assert_eq!((b.region_capacity, b.region_pages), (170, 1));
}

#[test]
fn a_stale_key_is_worth_a_few_attempts() {
    assert_eq!(exit_step(1, SUCCESS), ExitStep::Left);
    assert_eq!(exit_step(EXIT_ATTEMPTS, SUCCESS), ExitStep::Left);
    assert_eq!(exit_step(1, INVALID_PARAMETER), ExitStep::Retry);
    assert_eq!(exit_step(EXIT_ATTEMPTS - 1, INVALID_PARAMETER), ExitStep::Retry);
    assert_eq!(
        exit_step(EXIT_ATTEMPTS, INVALID_PARAMETER),
        ExitStep::Failed(Error { stage: "ExitBootServices", status: INVALID_PARAMETER })
    );
    assert_eq!(
        exit_step(1, ERROR_BIT + 14),
        ExitStep::Failed(Error { stage: "ExitBootServices", status: ERROR_BIT + 14 })
    );
}

#[test]
fn what_the_kernel_is_handed_validates() {
    let fb = Framebuffer::new(0x8000_0000, 800, 600, 3200, PixelFormat::Bgrx8888);
    let info = hand_off(0x5000, 7, fb, 0xF_0000, None, 0x20_0000, 0x3000);
    assert_eq!(info.validate(), Ok(()));
    assert_eq!((info.magic, info.version), (BootInfo::MAGIC, BootInfo::VERSION));
    assert_eq!((info.memory_map, info.memory_map_len), (0x5000, 7));
    assert_eq!(info.initrd(), None);
    assert_eq!((info.rsdp, info.kernel_phys, info.kernel_len), (0xF_0000, 0x20_0000, 0x3000));
    let file = Loaded { phys: 0x9000, len: 5 };
    let info = hand_off(0x5000, 7, fb, 0, Some(file), 0x20_0000, 0x3000);
    assert_eq!(info.initrd(), Some((0x9000, 5)));
}

#[test]
fn a_kernel_is_opened_with_its_size() {
    let bytes = kernel();
    let (elf, size) = open_kernel(&bytes).unwrap();
    assert_eq!(elf.entry(), KERNEL_VMA + 0x10);
    assert_eq!(size, 0x3000);
}

#[test]
fn an_image_that_cannot_be_placed_says_why() {
    let stage = |bytes: &[u8]| open_kernel(bytes).err().map(|e| (e.stage, e.status));
    assert_eq!(stage(b"#!/bin/sh"), Some((elf64::ElfError::TruncatedHeader.as_str(), 0)));
    assert_eq!(stage(&image(&[], &[])), Some((elf64::ElfError::NoLoadableSegments.as_str(), 0)));
    assert_eq!(
        stage(&image(&[(5, 64, KERNEL_VMA + 0x1000, 4, 4)], &[])),
        Some(("kernel image is not linked at the expected base", 0))
    );
}

#[test]
fn a_kernel_is_loaded_byte_for_byte() {
    let bytes = kernel();
    let (elf, size) = open_kernel(&bytes).unwrap();
    let mut block = vec![0u8; size as usize];
    let mut tables = PageTables::new(0x100_0000, true);
    let mut spare = frames(8);
    let phys = 0x20_0000;
    assert_eq!(load_kernel(&elf, size, phys, &mut block, &mut tables, &mut spare), Ok(()));
    let mut expected = vec![0u8; 0x3000];
    expected[0..4].copy_from_slice(&[1, 2, 3, 4]);
    expected[0x1000..0x1003].copy_from_slice(&[5, 6, 7]);
    assert_eq!(block, expected);
    assert_eq!(small_page(&tables, KERNEL_VMA), Some((phys, phys + 1)));
    let no_execute = 1 << 63;
    for page in [0x1000, 0x2000] {
        assert_eq!(
            small_page(&tables, KERNEL_VMA + page),
            Some((phys + page, no_execute | (phys + page + 3)))
        );
    }
    assert_eq!(small_page(&tables, KERNEL_VMA + 0x3000), None);
}

#[test]
fn a_segment_that_is_writable_and_executable_is_never_mapped() {
    let bytes = image(&[(7, 64, KERNEL_VMA, 4, 4)], &[]);
    let (elf, size) = open_kernel(&bytes).unwrap();
    let mut block = vec![0u8; size as usize];
    let mut tables = PageTables::new(0x100_0000, true);
    let result = load_kernel(&elf, size, 0, &mut block, &mut tables, &mut frames(8));
    assert_eq!(result, Err(LoadError::WritableAndExecutable));
    assert_eq!(
        LoadError::WritableAndExecutable.stage(),
        "kernel image contains a writable+executable segment"
    );
    assert_eq!(small_page(&tables, KERNEL_VMA), None);
}

#[test]
fn a_kernel_without_frames_for_its_tables_is_not_loaded() {
    let bytes = kernel();
    let (elf, size) = open_kernel(&bytes).unwrap();
    let mut block = vec![0u8; size as usize];
    let mut tables = PageTables::new(0x100_0000, true);
    let result = load_kernel(&elf, size, 0, &mut block, &mut tables, &mut frames(2));
    assert_eq!(result, Err(LoadError::Mapping(MapError::OutOfFrames)));
    assert_eq!(LoadError::Mapping(MapError::OutOfFrames).stage(), "allocate page table");
}

#[test]
fn rights_follow_the_segment_and_execution_excludes_writing() {
    let r = |write, execute| segment_rights(elf64::Rights { read: true, write, execute });
    assert_eq!(r(false, false), Rights::ro());
    assert_eq!(r(true, false), Rights::rw());
    assert_eq!(r(false, true), Rights::rx());
    assert_eq!(r(true, true), Rights::rx());
}

#[test]
fn physical_memory_is_mapped_at_both_places() {
    let mut tables = PageTables::new(0x100_0000, true);
    let mut spare = frames(8);
    let all = Rights { write: true, execute: true };
    assert_eq!(map_physical(&mut tables, &mut spare, 0, SIZE_2M, all), Ok(()));
    assert_eq!(small_page(&tables, 0x1234), Some((0x1234, 0x83)));
    assert_eq!(
        small_page(&tables, PHYS_MAP_BASE + 0x1234),
        Some((0x1234, (1 << 63) | 0x83))
    );
    assert_eq!(
        map_physical(&mut tables, &mut spare, 0x10, 0x1000, all),
        Err(MapError::Misaligned)
    );
    assert_eq!(
        map_physical(&mut tables, &mut spare, 0x1000, 0x1000, all),
        Err(MapError::Collides)
    );
}

#[test]
fn the_second_mapping_can_run_out_of_frames_too() {
    let mut tables = PageTables::new(0x100_0000, true);
    let mut spare = frames(3);
    assert_eq!(
        map_physical(&mut tables, &mut spare, 0, 0x1000, Rights::rw()),
        Err(MapError::OutOfFrames)
    );
    assert!(small_page(&tables, 0).is_some());
}

#[test]
fn a_kernel_is_loaded_as_soon_as_there_are_frames_for_its_tables() {
    let bytes = kernel();
    let (elf, size) = open_kernel(&bytes).unwrap();
    let mut block = vec![0u8; size as usize];
    let mut tables = PageTables::new(0x100_0000, true);
    let mut spare = Vec::new();
    let mut refusals = 0;
    for frame in frames(8) {
        match load_kernel(&elf, size, 0x20_0000, &mut block, &mut tables, &mut spare) {
            Ok(()) => break,
            Err(e) => assert_eq!(e, LoadError::Mapping(MapError::OutOfFrames)),
        }
        refusals += 1;
        spare.push(frame);
    }
    // Three tables below the root, each asked for once.
    assert_eq!((refusals, tables.table_count()), (3, 4));
    assert_eq!(small_page(&tables, KERNEL_VMA), Some((0x20_0000, 0x20_0001)));
    let frames: Vec<_> = (1..4).map(|t| tables.frame(t).unwrap()).collect();
    assert_eq!(frames, [0x100_1000, 0x100_2000, 0x100_3000]);
}

#[test]
fn memory_is_mapped_with_exactly_the_frames_it_lacks() {
    // One table for each half of the address space, below the root.
    for (n, expected) in [(1, Err(MapError::OutOfFrames)), (2, Ok(()))] {
        let mut tables = PageTables::new(0x100_0000, true);
        let mut spare = frames(n);
        assert_eq!(map_physical(&mut tables, &mut spare, 0, GIB, Rights::rw()), expected);
        assert!(spare.is_empty());
    }
}

#[test]
fn a_large_segment_is_mapped_in_small_pages() {
    let bytes = image(&[(5, 64, KERNEL_VMA, 4, 2 * SIZE_2M)], &[]);
    let (elf, size) = open_kernel(&bytes).unwrap();
    let mut block = vec![0u8; size as usize];
    let mut tables = PageTables::new(0x100_0000, true);
    let phys = 4 * SIZE_2M;
    let mut spare = frames(8);
    assert_eq!(load_kernel(&elf, size, phys, &mut block, &mut tables, &mut spare), Ok(()));
    for off in [0, 0x1000, SIZE_2M, 2 * SIZE_2M - 0x1000] {
        // No size bit, and a physical page of its own.
        assert_eq!(small_page(&tables, KERNEL_VMA + off), Some((phys + off, phys + off + 1)));
    }
    // One table for the half, one for the gibibyte, and one for each 2 MiB.
    assert_eq!(tables.table_count(), 5);
}
