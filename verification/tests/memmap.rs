use staros_pc::bootinfo::{MemoryKind, MemoryRegion};
use staros_pc::loader::efi::{
    memory_type, MemoryDescriptor, DESCRIPTOR_LEN, DESCRIPTOR_PAGES, DESCRIPTOR_PHYS, DESCRIPTOR_TY,
};
use staros_pc::loader::memmap::{
    classify, convert, highest_address, highest_ram_address, ConvertError,
};

fn desc(ty: u32, phys: u64, pages: u64, stride: usize) -> Vec<u8> {
    let mut d = vec![0u8; stride];
    d[0..4].copy_from_slice(&ty.to_le_bytes());
    d[8..16].copy_from_slice(&phys.to_le_bytes());
    d[16..24].copy_from_slice(&0u64.to_le_bytes());
    d[24..32].copy_from_slice(&pages.to_le_bytes());
    d[32..40].copy_from_slice(&0xFu64.to_le_bytes());
    d
}

fn map_of(entries: &[(u32, u64, u64)], stride: usize) -> Vec<u8> {
    entries.iter().flat_map(|&(t, p, n)| desc(t, p, n, stride)).collect()
}

const NATIVE: usize = DESCRIPTOR_LEN;

#[test]
fn a_descriptor_is_forty_bytes_and_the_field_offsets_match() {
    assert_eq!(NATIVE, 40);
    assert_eq!(core::mem::size_of::<MemoryDescriptor>(), 40);
    assert_eq!(DESCRIPTOR_TY, 0);
    assert_eq!(DESCRIPTOR_PHYS, 8);
    assert_eq!(DESCRIPTOR_PAGES, 24);
}

#[test]
fn converts_a_simple_map() {
    let map = map_of(
        &[
            (memory_type::CONVENTIONAL, 0x0, 16),
            (memory_type::ACPI_RECLAIM, 0x10_000, 2),
        ],
        NATIVE,
    );
    let mut out = [MemoryRegion::new(0, 0, MemoryKind::Reserved); 8];
    let n = convert(&map, NATIVE, &mut out).unwrap();
    assert_eq!(n, 2);
    assert_eq!(out[0], MemoryRegion::new(0, 16 * 4096, MemoryKind::Usable));
    assert_eq!(out[1], MemoryRegion::new(0x10_000, 8192, MemoryKind::AcpiReclaimable));
}

#[test]
fn an_oversized_descriptor_stride_is_honoured() {
    let stride = 48;
    let map = map_of(
        &[
            (memory_type::CONVENTIONAL, 0x0, 1),
            (memory_type::ACPI_NVS, 0x8_0000, 1),
        ],
        stride,
    );
    let mut out = [MemoryRegion::new(0, 0, MemoryKind::Reserved); 8];
    let n = convert(&map, stride, &mut out).unwrap();
    assert_eq!(n, 2);
    assert_eq!(out[1].start, 0x8_0000);
    assert_eq!(out[1].kind, MemoryKind::AcpiNvs);

    let mut wrong = [MemoryRegion::new(0, 0, MemoryKind::Reserved); 8];
    let n_wrong = convert(&map, NATIVE, &mut wrong).unwrap();
    assert_ne!(&wrong[..n_wrong], &out[..n]);
}

#[test]
fn adjacent_regions_of_the_same_kind_coalesce() {
    let map = map_of(
        &[
            (memory_type::CONVENTIONAL, 0x0, 1),
            (memory_type::CONVENTIONAL, 0x1000, 1),
            (memory_type::CONVENTIONAL, 0x2000, 2),
        ],
        NATIVE,
    );
    let mut out = [MemoryRegion::new(0, 0, MemoryKind::Reserved); 8];
    assert_eq!(convert(&map, NATIVE, &mut out).unwrap(), 1);
    assert_eq!(out[0], MemoryRegion::new(0, 4 * 4096, MemoryKind::Usable));
}

#[test]
fn boot_services_memory_coalesces_with_reserved_because_both_are_reserved() {
    let map = map_of(
        &[
            (memory_type::BOOT_SERVICES_DATA, 0x0, 1),
            (0xDEAD_BEEF, 0x1000, 1),
        ],
        NATIVE,
    );
    let mut out = [MemoryRegion::new(0, 0, MemoryKind::Reserved); 4];
    assert_eq!(convert(&map, NATIVE, &mut out).unwrap(), 1);
    assert_eq!(out[0].len, 8192);
    assert_eq!(out[0].kind, MemoryKind::Reserved);
}

#[test]
fn a_gap_prevents_coalescing_even_for_the_same_kind() {
    let map = map_of(
        &[
            (memory_type::CONVENTIONAL, 0x0, 1),
            (memory_type::CONVENTIONAL, 0x2000, 1),
        ],
        NATIVE,
    );
    let mut out = [MemoryRegion::new(0, 0, MemoryKind::Reserved); 4];
    assert_eq!(convert(&map, NATIVE, &mut out).unwrap(), 2);
}

#[test]
fn zero_page_entries_are_dropped_and_do_not_break_coalescing() {
    let map = map_of(
        &[
            (memory_type::CONVENTIONAL, 0x0, 1),
            (memory_type::ACPI_NVS, 0x1000, 0),
            (memory_type::CONVENTIONAL, 0x1000, 1),
        ],
        NATIVE,
    );
    let mut out = [MemoryRegion::new(0, 0, MemoryKind::Reserved); 4];
    assert_eq!(convert(&map, NATIVE, &mut out).unwrap(), 1);
    assert_eq!(out[0].len, 8192);
}

#[test]
fn a_full_output_slice_reports_how_many_regions_were_needed() {
    let map = map_of(
        &[
            (memory_type::CONVENTIONAL, 0x0, 1),
            (memory_type::ACPI_NVS, 0x1000, 1),
            (memory_type::CONVENTIONAL, 0x2000, 1),
            (memory_type::ACPI_NVS, 0x3000, 1),
        ],
        NATIVE,
    );
    let mut out = [MemoryRegion::new(0, 0, MemoryKind::Reserved); 2];
    assert_eq!(convert(&map, NATIVE, &mut out), Err(ConvertError::TooManyRegions(4)));
}

#[test]
fn an_impossible_descriptor_size_is_rejected_before_any_read() {
    let map = vec![0u8; 128];
    assert_eq!(convert(&map, 8, &mut []), Err(ConvertError::BadDescriptorSize));
    assert_eq!(highest_address(&map, 8, 4096), Err(ConvertError::BadDescriptorSize));
}

#[test]
fn a_trailing_partial_descriptor_is_ignored() {
    let mut map = map_of(&[(memory_type::CONVENTIONAL, 0x0, 1)], NATIVE);
    map.extend_from_slice(&[0xAB; 17]);
    let mut out = [MemoryRegion::new(0, 0, MemoryKind::Reserved); 4];
    assert_eq!(convert(&map, NATIVE, &mut out).unwrap(), 1);
}

#[test]
fn an_empty_map_converts_to_nothing_rather_than_failing() {
    let mut out = [MemoryRegion::new(0, 0, MemoryKind::Reserved); 4];
    assert_eq!(convert(&[], NATIVE, &mut out).unwrap(), 0);
    assert_eq!(highest_address(&[], NATIVE, 4096).unwrap(), 0);
}

#[test]
fn highest_address_covers_mmio_above_ram_and_rounds_up() {
    let map = map_of(
        &[
            (memory_type::CONVENTIONAL, 0x0, 0x8_0000),
            (0xB, 0xFEE0_0000, 1),
        ],
        NATIVE,
    );
    const GIB: u64 = 1 << 30;
    assert_eq!(highest_address(&map, NATIVE, GIB).unwrap(), 4 * GIB);
}

#[test]
fn a_descriptor_claiming_the_end_of_the_address_space_saturates() {
    let map = map_of(&[(memory_type::CONVENTIONAL, u64::MAX - 4095, u64::MAX)], NATIVE);
    assert_eq!(highest_address(&map, NATIVE, 4096).unwrap(), u64::MAX);
    let mut out = [MemoryRegion::new(0, 0, MemoryKind::Reserved); 4];
    assert_eq!(convert(&map, NATIVE, &mut out).unwrap(), 1);
    assert_eq!(out[0].end(), u64::MAX);
}

#[test]
fn classification_is_conservative_for_unknown_types() {
    for ty in [0u32, 5, 6, 11, 12, 13, 14, 15, 0x7000_0000, u32::MAX] {
        assert_eq!(classify(ty), MemoryKind::Reserved, "type {ty} must not be usable");
    }
    assert_eq!(classify(memory_type::CONVENTIONAL), MemoryKind::Usable);
    assert!(classify(memory_type::CONVENTIONAL).usable_at_boot());
    assert!(!classify(memory_type::ACPI_RECLAIM).usable_at_boot());
    assert!(!classify(memory_type::LOADER_DATA).usable_at_boot());
}

#[test]
fn a_descriptor_is_read_field_by_field() {
    let mut map = vec![0xEE; 3];
    map.extend(desc(7, 0x1234_5000, 9, NATIVE));
    let d = MemoryDescriptor::read(&map, 3).unwrap();
    assert_eq!((d.ty, d.phys_start, d.pages), (7, 0x1234_5000, 9));
    assert_eq!((d.virt_start, d.attribute), (0, 0xF));
    assert!(MemoryDescriptor::read(&map, 4).is_none());
}

#[test]
fn the_reported_room_is_exactly_what_a_second_try_needs() {
    let map = map_of(
        &[
            (memory_type::CONVENTIONAL, 0x0, 1),
            (memory_type::ACPI_NVS, 0x1000, 1),
            (memory_type::ACPI_NVS, 0x2000, 1),
            (memory_type::CONVENTIONAL, 0x9000, 1),
        ],
        NATIVE,
    );
    let needed = match convert(&map, NATIVE, &mut []) {
        Err(ConvertError::TooManyRegions(needed)) => needed,
        other => panic!("{other:?}"),
    };
    let mut out = vec![MemoryRegion::new(0, 0, MemoryKind::Reserved); needed];
    assert_eq!(convert(&map, NATIVE, &mut out), Ok(3));
    assert_eq!(needed, 3);
}

#[test]
fn device_windows_do_not_count_as_memory() {
    let map = map_of(
        &[
            (memory_type::CONVENTIONAL, 0x0, 0x8_0000),
            (0, 0xFEE0_0000, 1),
            (11, 0xFF_0000_0000, 1),
        ],
        NATIVE,
    );
    const GIB: u64 = 1 << 30;
    assert_eq!(highest_ram_address(&map, NATIVE, GIB), Ok(2 * GIB));
    assert_eq!(highest_address(&map, NATIVE, GIB), Ok(0xFF_4000_0000));
    assert_eq!(highest_ram_address(&map, 39, GIB), Err(ConvertError::BadDescriptorSize));
}

#[test]
fn there_is_nothing_to_round_up_to_without_an_alignment() {
    let map = map_of(&[(memory_type::CONVENTIONAL, 0x0, 1)], NATIVE);
    assert_eq!(highest_address(&map, NATIVE, 0), Ok(u64::MAX));
    assert_eq!(highest_ram_address(&[], NATIVE, 0), Ok(u64::MAX));
    assert_eq!(highest_address(&map, 39, 0), Err(ConvertError::BadDescriptorSize));
}
