use staros_pc::bootinfo::{
    free_runs, largest_free_run, phys_to_virt, summarise, BootInfo, BootInfoError, Framebuffer,
    MemoryKind, MemoryRegion, MemoryStats, PixelFormat, KERNEL_VMA, MAX_FREE_RUNS, PHYS_MAP_BASE,
};
use staros_pc::framebuffer;

const MIB: u64 = 1024 * 1024;

fn boot_info() -> BootInfo {
    BootInfo {
        magic: BootInfo::MAGIC,
        version: BootInfo::VERSION,
        memory_map_len: 3,
        memory_map: 0x1000,
        framebuffer: Framebuffer::new(0xE000_0000, 1920, 1080, 1920 * 4, PixelFormat::Bgrx8888),
        rsdp: 0x000F_0000,
        initrd: 0,
        initrd_len: 0,
        kernel_phys: 0x10_0000,
        kernel_len: 512 * 1024,
    }
}

#[test]
fn a_well_formed_boot_info_validates() {
    assert_eq!(boot_info().validate(), Ok(()));
}

#[test]
fn each_rejection_is_named_separately() {
    let mut bi = boot_info();
    bi.magic = 0;
    assert_eq!(bi.validate(), Err(BootInfoError::BadMagic));

    let mut bi = boot_info();
    bi.version = BootInfo::VERSION + 1;
    assert_eq!(bi.validate(), Err(BootInfoError::BadVersion));

    let mut bi = boot_info();
    bi.memory_map_len = 0;
    assert_eq!(bi.validate(), Err(BootInfoError::NoMemoryMap));
}

#[test]
fn magic_is_the_ascii_we_think_it_is() {
    assert_eq!(BootInfo::MAGIC.to_le_bytes(), *b"STAROSPC");
}

#[test]
fn a_padded_framebuffer_is_measured_by_its_stride() {
    let fb = Framebuffer::new(0xE000_0000, 1366, 768, 1376 * 4, PixelFormat::Bgrx8888);
    assert!(fb.is_sane());
    assert_eq!(fb.bytes(), 768 * 1376 * 4);
    assert_ne!(fb.bytes(), 768 * 1366 * 4, "measuring by width under-maps");
}

#[test]
fn insane_framebuffers_are_rejected_rather_than_drawn_on() {
    let no_base = Framebuffer::new(0, 800, 600, 3200, PixelFormat::Bgrx8888);
    assert!(!no_base.is_sane());
    let too_narrow = Framebuffer::new(0xE000_0000, 800, 600, 800, PixelFormat::Bgrx8888);
    assert!(!too_narrow.is_sane(), "stride below one row of pixels");
    let empty = Framebuffer::new(0xE000_0000, 0, 600, 3200, PixelFormat::Bgrx8888);
    assert!(!empty.is_sane());
}

#[test]
fn summary_skips_empty_regions_and_finds_the_biggest() {
    let map = [
        MemoryRegion::new(0, 0, MemoryKind::Usable),
        MemoryRegion::new(0x1000, 64 * MIB, MemoryKind::Usable),
        MemoryRegion::new(0x1000 + 64 * MIB, 16 * MIB, MemoryKind::Reserved),
        MemoryRegion::new(0x1_0000_0000, 512 * MIB, MemoryKind::Usable),
        MemoryRegion::new(0x2_0000_0000, 8 * MIB, MemoryKind::AcpiReclaimable),
    ];
    let s = summarise(&map);
    assert_eq!(s.usable_bytes, (64 + 512) * MIB);
    assert_eq!(s.total_bytes, (64 + 16 + 512 + 8) * MIB);
    assert_eq!(s.largest_usable, Some((0x1_0000_0000, 512 * MIB)));
    assert_eq!(s.highest_address, 0x2_0000_0000 + 8 * MIB);
    assert_eq!(s.highest_ram, 0x2_0000_0000 + 8 * MIB);
}

#[test]
fn a_device_aperture_does_not_stretch_the_ram_extent() {
    let map = [
        MemoryRegion::new(0, 512 * MIB, MemoryKind::Usable),
        MemoryRegion::new(0xFD_0000_0000, 12 * 1024 * MIB, MemoryKind::Reserved),
    ];
    let s = summarise(&map);
    assert_eq!(s.highest_ram, 512 * MIB, "the aperture was counted as memory");
    assert_eq!(s.highest_address, 0xFD_0000_0000 + 12 * 1024 * MIB);
}

#[test]
fn every_kind_but_reserved_counts_as_ram() {
    for kind in [
        MemoryKind::Usable,
        MemoryKind::AcpiReclaimable,
        MemoryKind::AcpiNvs,
        MemoryKind::LoaderReclaimable,
        MemoryKind::BadMemory,
    ] {
        let s = summarise(&[MemoryRegion::new(0, 4 * MIB, kind)]);
        assert_eq!(s.highest_ram, 4 * MIB, "{kind:?} was treated as an aperture");
    }
    let s = summarise(&[MemoryRegion::new(0, 4 * MIB, MemoryKind::Reserved)]);
    assert_eq!(s.highest_ram, 0);
}

#[test]
fn reclaimable_memory_is_not_usable_at_boot() {
    assert!(!MemoryKind::AcpiReclaimable.usable_at_boot());
    assert!(!MemoryKind::LoaderReclaimable.usable_at_boot());
    assert!(!MemoryKind::AcpiNvs.usable_at_boot());
    assert!(!MemoryKind::BadMemory.usable_at_boot());
    assert!(MemoryKind::Usable.usable_at_boot());
}

#[test]
fn an_exclusion_in_the_middle_keeps_the_larger_half() {
    let map = [MemoryRegion::new(0, 100 * MIB, MemoryKind::Usable)];
    let run = largest_free_run(&map, &[(10 * MIB, 2 * MIB)]);
    assert_eq!(run, Some((12 * MIB, 88 * MIB)));
}

fn runs(map: &[MemoryRegion], exclusions: &[(u64, u64)]) -> Vec<(u64, u64)> {
    let mut out = [(0u64, 0u64); MAX_FREE_RUNS];
    let n = free_runs(map, exclusions, &mut out);
    assert!(n <= MAX_FREE_RUNS, "{n} runs did not fit");
    let mut v = out[..n].to_vec();
    v.sort_unstable();
    v
}

#[test]
fn an_exclusion_in_the_middle_yields_both_halves() {
    let map = [MemoryRegion::new(0, 100 * MIB, MemoryKind::Usable)];
    assert_eq!(
        runs(&map, &[(10 * MIB, 2 * MIB)]),
        vec![(0, 10 * MIB), (12 * MIB, 88 * MIB)],
    );
}

#[test]
fn two_exclusions_in_one_region_no_longer_lose_the_middle() {
    let map = [MemoryRegion::new(0, 100 * MIB, MemoryKind::Usable)];
    assert_eq!(
        runs(&map, &[(10 * MIB, 2 * MIB), (50 * MIB, 4 * MIB)]),
        vec![(0, 10 * MIB), (12 * MIB, 38 * MIB), (54 * MIB, 46 * MIB)],
    );
}

#[test]
fn every_usable_region_is_returned_not_just_the_biggest() {
    let map = [
        MemoryRegion::new(0x10_0000, 2048 * MIB, MemoryKind::Usable),
        MemoryRegion::new(0x1_0000_0000, 1994 * MIB, MemoryKind::Usable),
        MemoryRegion::new(0xFD_0000_0000, 12 * 1024 * MIB, MemoryKind::Reserved),
    ];
    assert_eq!(
        runs(&map, &[]),
        vec![(0x10_0000, 2048 * MIB), (0x1_0000_0000, 1994 * MIB)],
    );
}

#[test]
fn an_exclusion_spanning_two_regions_trims_both() {
    let map = [
        MemoryRegion::new(0, 16 * MIB, MemoryKind::Usable),
        MemoryRegion::new(16 * MIB, 16 * MIB, MemoryKind::Usable),
    ];
    assert_eq!(
        runs(&map, &[(8 * MIB, 16 * MIB)]),
        vec![(0, 8 * MIB), (24 * MIB, 8 * MIB)],
    );
}

#[test]
fn nothing_returned_ever_overlaps_an_exclusion() {
    let map = [
        MemoryRegion::new(0, 64 * MIB, MemoryKind::Usable),
        MemoryRegion::new(128 * MIB, 64 * MIB, MemoryKind::Usable),
    ];
    let exclusions = [
        (0, 1 * MIB),
        (7 * MIB, 3 * MIB),
        (60 * MIB, 100 * MIB),
        (190 * MIB, 8 * MIB),
    ];
    for (start, len) in runs(&map, &exclusions) {
        let end = start + len;
        assert!(len > 0, "an empty run was returned");
        for &(ex_start, ex_len) in &exclusions {
            let ex_end = ex_start + ex_len;
            assert!(
                end <= ex_start || start >= ex_end,
                "run {start:#x}..{end:#x} overlaps exclusion {ex_start:#x}..{ex_end:#x}",
            );
        }
        assert!(
            map.iter().any(|r| r.kind.usable_at_boot() && start >= r.start && end <= r.end()),
            "run {start:#x}..{end:#x} is not inside any usable region",
        );
    }
}

#[test]
fn more_runs_than_fit_are_counted_and_the_rest_dropped() {
    let map: Vec<MemoryRegion> = (0..8u64)
        .map(|i| MemoryRegion::new(i * 16 * MIB, 8 * MIB, MemoryKind::Usable))
        .collect();
    let mut out = [(0u64, 0u64); 3];
    let n = free_runs(&map, &[], &mut out);
    assert_eq!(n, 8, "the count must be the truth, not what fitted");
    assert_eq!(out, [(0, 8 * MIB), (16 * MIB, 8 * MIB), (32 * MIB, 8 * MIB)]);
}

#[test]
fn an_empty_exclusion_excludes_nothing() {
    let map = [MemoryRegion::new(0, 16 * MIB, MemoryKind::Usable)];
    assert_eq!(runs(&map, &[(4 * MIB, 0), (0, 0)]), vec![(0, 16 * MIB)]);
}

#[test]
fn largest_free_run_still_agrees_with_free_runs() {
    let map = [
        MemoryRegion::new(0, 100 * MIB, MemoryKind::Usable),
        MemoryRegion::new(256 * MIB, 30 * MIB, MemoryKind::Usable),
    ];
    for exclusions in [
        &[][..],
        &[(10 * MIB, 2 * MIB)][..],
        &[(0, 99 * MIB)][..],
        &[(0, 400 * MIB)][..],
    ] {
        let expected = runs(&map, exclusions).into_iter().max_by_key(|&(_, len)| len);
        assert_eq!(largest_free_run(&map, exclusions), expected, "{exclusions:?}");
    }
}

#[test]
fn an_exclusion_at_the_start_shortens_rather_than_splits() {
    let map = [MemoryRegion::new(0, 100 * MIB, MemoryKind::Usable)];
    assert_eq!(largest_free_run(&map, &[(0, 4 * MIB)]), Some((4 * MIB, 96 * MIB)));
}

#[test]
fn a_disjoint_exclusion_changes_nothing() {
    let map = [MemoryRegion::new(64 * MIB, 64 * MIB, MemoryKind::Usable)];
    assert_eq!(
        largest_free_run(&map, &[(0, 1 * MIB), (256 * MIB, 8 * MIB)]),
        Some((64 * MIB, 64 * MIB)),
    );
}

#[test]
fn an_exclusion_covering_a_region_removes_it_from_consideration() {
    let map = [
        MemoryRegion::new(0, 8 * MIB, MemoryKind::Usable),
        MemoryRegion::new(32 * MIB, 4 * MIB, MemoryKind::Usable),
    ];
    assert_eq!(largest_free_run(&map, &[(0, 16 * MIB)]), Some((32 * MIB, 4 * MIB)));
}

#[test]
fn a_region_claiming_past_the_address_space_does_not_wrap() {
    let r = MemoryRegion::new(u64::MAX - 0xfff, 0x8000, MemoryKind::Usable);
    assert_eq!(r.end(), u64::MAX, "saturates instead of wrapping to zero");
    assert!(r.contains(u64::MAX - 1));
    let s = summarise(&[r]);
    assert_eq!(s.highest_address, u64::MAX);
}

#[test]
fn no_usable_memory_is_none_not_zero() {
    let map = [MemoryRegion::new(0, 64 * MIB, MemoryKind::Reserved)];
    assert_eq!(summarise(&map).largest_usable, None);
    assert_eq!(largest_free_run(&map, &[]), None);
}

#[test]
fn the_linear_map_and_the_kernel_image_do_not_overlap() {
    assert!(PHYS_MAP_BASE < KERNEL_VMA);
    assert_eq!(KERNEL_VMA - PHYS_MAP_BASE, 0x7FFF_8000_0000);
}

#[test]
fn phys_to_virt_is_the_linear_map_and_saturates_instead_of_aliasing() {
    assert_eq!(phys_to_virt(0), PHYS_MAP_BASE);
    assert_eq!(phys_to_virt(0x8000_0000), PHYS_MAP_BASE + 0x8000_0000);
    assert_eq!(phys_to_virt(u64::MAX), u64::MAX);
}

#[test]
fn gop_blue_first_is_the_drawing_crate_s_xrgb_and_the_names_invert() {
    let fmt = PixelFormat::Bgrx8888.to_framebuffer();
    assert_eq!(fmt, framebuffer::PixelFormat::xrgb8888());
    assert_eq!(fmt.encode(0, 0, 0xFF), 0x0000_00FF);
    assert_eq!(fmt.encode(0xFF, 0, 0), 0x00FF_0000);
}

#[test]
fn gop_red_first_is_the_drawing_crate_s_xbgr() {
    let fmt = PixelFormat::Rgbx8888.to_framebuffer();
    assert_eq!(fmt, framebuffer::PixelFormat::xbgr8888());
    assert_eq!(fmt.encode(0xFF, 0, 0), 0x0000_00FF);
    assert_eq!(fmt.encode(0, 0, 0xFF), 0x00FF_0000);
}

#[test]
fn a_framebuffer_descriptor_sizes_its_own_mapping_by_stride() {
    let fb = Framebuffer::new(0x8000_0000, 1366, 768, 1376 * 4, PixelFormat::Bgrx8888);
    assert!(fb.is_sane());
    assert_eq!(fb.bytes(), 768 * 1376 * 4);
    assert!(fb.bytes() > u64::from(fb.width) * u64::from(fb.height) * 4);
}

#[test]
fn a_missing_memory_map_is_refused_by_its_address_too() {
    let mut bi = boot_info();
    bi.memory_map = 0;
    assert_eq!(bi.validate(), Err(BootInfoError::NoMemoryMap));
    // The first check that fails is the one reported.
    bi.version = 9;
    assert_eq!(bi.validate(), Err(BootInfoError::BadVersion));
    bi.magic = 9;
    assert_eq!(bi.validate(), Err(BootInfoError::BadMagic));
}

#[test]
fn optional_parts_are_absent_unless_they_make_sense() {
    let mut bi = boot_info();
    assert_eq!(bi.framebuffer().map(|fb| fb.width), Some(1920));
    assert_eq!(bi.initrd(), None);
    bi.initrd = 0x20_0000;
    assert_eq!(bi.initrd(), None);
    bi.initrd_len = 12;
    assert_eq!(bi.initrd(), Some((0x20_0000, 12)));
    bi.framebuffer.height = 0;
    assert_eq!(bi.framebuffer(), None);
}

#[test]
fn a_width_whose_row_does_not_fit_is_not_sane() {
    // Four bytes a pixel do not fit 32 bits here.
    let fb = Framebuffer::new(0x1000, 0x4000_0001, 1, 4, PixelFormat::Bgrx8888);
    assert!(!fb.is_sane());
}

#[test]
fn the_sums_of_a_map_saturate() {
    let map = [
        MemoryRegion::new(0, u64::MAX - 1, MemoryKind::Usable),
        MemoryRegion::new(0, 4, MemoryKind::Usable),
    ];
    let s = summarise(&map);
    assert_eq!(s.usable_bytes, u64::MAX);
    assert_eq!(s.total_bytes, u64::MAX);
    assert_eq!(s.largest_usable, Some((0, u64::MAX - 1)));
    assert_eq!(summarise(&[]), MemoryStats::default());
}

#[test]
fn of_two_longest_usable_ranges_the_first_is_reported() {
    let map = [
        MemoryRegion::new(0x1000, 0x1000, MemoryKind::Usable),
        MemoryRegion::new(0x9000, 0x1000, MemoryKind::Usable),
    ];
    assert_eq!(summarise(&map).largest_usable, Some((0x1000, 0x1000)));
    assert_eq!(largest_free_run(&map, &[]), Some((0x1000, 0x1000)));
}

#[test]
fn with_no_room_for_both_halves_the_larger_one_stays() {
    let map = [MemoryRegion::new(0, 100, MemoryKind::Usable)];
    let mut out = [(0u64, 0u64); 1];
    assert_eq!(free_runs(&map, &[(10, 2)], &mut out), 2);
    assert_eq!(out, [(12, 88)]);
    assert_eq!(free_runs(&map, &[(90, 2)], &mut out), 2);
    assert_eq!(out, [(0, 90)]);
    // Halves of the same size: the lower one.
    assert_eq!(free_runs(&map, &[(49, 2)], &mut out), 2);
    assert_eq!(out, [(0, 49)]);
}

#[test]
fn the_count_is_of_runs_and_not_of_regions() {
    // Two regions there is no room for, one of them excluded whole.
    let map = [
        MemoryRegion::new(0, 10, MemoryKind::Usable),
        MemoryRegion::new(20, 10, MemoryKind::Usable),
        MemoryRegion::new(40, 10, MemoryKind::Usable),
    ];
    let mut out = [(0u64, 0u64); 1];
    assert_eq!(free_runs(&map, &[(20, 10), (44, 2)], &mut out), 3);
    assert_eq!(out, [(0, 10)]);
}

#[test]
fn a_slot_that_becomes_free_is_used_for_a_run_that_did_not_fit() {
    // The first region fills the only slot and is then excluded whole.
    let map = [
        MemoryRegion::new(0, 10, MemoryKind::Usable),
        MemoryRegion::new(20, 10, MemoryKind::Usable),
    ];
    let mut out = [(7u64, 7u64); 1];
    assert_eq!(free_runs(&map, &[(0, 10)], &mut out), 1);
    assert_eq!(out, [(20, 10)]);
    let mut none: [(u64, u64); 0] = [];
    assert_eq!(free_runs(&map, &[(0, 10)], &mut none), 1);
}

#[test]
fn touching_and_overlapping_exclusions_leave_one_run_between() {
    let map = [MemoryRegion::new(0, 100, MemoryKind::Usable)];
    let mut out = [(0u64, 0u64); 8];
    let n = free_runs(&map, &[(10, 10), (20, 10), (15, 15), (60, 0), (30, 0)], &mut out);
    assert_eq!(n, 2);
    assert_eq!(out[..2], [(0, 10), (30, 70)]);
}

#[test]
fn every_free_address_is_in_exactly_one_run() {
    let map = [
        MemoryRegion::new(0, 40, MemoryKind::Usable),
        MemoryRegion::new(40, 10, MemoryKind::Reserved),
        MemoryRegion::new(50, 30, MemoryKind::Usable),
    ];
    let exclusions = [(5, 3), (7, 4), (38, 20), (79, 100)];
    let mut out = [(0u64, 0u64); 16];
    let n = free_runs(&map, &exclusions, &mut out);
    for a in 0..100u64 {
        let usable = (a < 40 || (50..80).contains(&a))
            && !exclusions.iter().any(|&(s, l)| a >= s && a < s + l);
        let found = out[..n].iter().filter(|&&(s, l)| a >= s && a < s + l).count();
        assert_eq!(found, usize::from(usable), "address {a}");
    }
}

#[test]
fn the_largest_run_is_found_wherever_it_is() {
    // More usable regions than slots, and an exclusion that swallows the first.
    let mut map: Vec<MemoryRegion> = (0..100u64)
        .map(|i| MemoryRegion::new(0x10_0000 + i * 0x2000, 0x1000, MemoryKind::Usable))
        .collect();
    map[50].len = 0x1800;
    let run = largest_free_run(&map, &[(0x10_0000, 0x1000)]);
    assert_eq!(run, Some((0x10_0000 + 50 * 0x2000, 0x1800)));
    // Even where there is no slot for it.
    map[99].len = 0x1900;
    let run = largest_free_run(&map, &[(0x10_0000, 0x1000)]);
    assert_eq!(run, Some((0x10_0000 + 99 * 0x2000, 0x1900)));
}

#[test]
fn no_two_colours_share_a_word() {
    let format = framebuffer::PixelFormat::xrgb8888();
    assert_eq!(format.encode(0x12, 0x34, 0x56), 0x0012_3456);
    assert_eq!(framebuffer::PixelFormat::xbgr8888().encode(0x12, 0x34, 0x56), 0x0056_3412);
}

#[test]
fn memory_that_is_described_twice_is_handed_back_as_often() {
    let map = [
        MemoryRegion::new(0, 0x1000, MemoryKind::Usable),
        MemoryRegion::new(0x2000, 0x1000, MemoryKind::Usable),
        MemoryRegion::new(0x2000, 0x1000, MemoryKind::Usable),
    ];
    let mut out = [(0u64, 0u64); 2];
    assert_eq!(free_runs(&map, &[(0, 0x1000)], &mut out), 2);
    assert_eq!(out, [(0x2000, 0x1000), (0x2000, 0x1000)]);
    let mut out = [(0u64, 0u64); 5];
    assert_eq!(free_runs(&map, &[(0, 0x1000)], &mut out), 2);
    assert_eq!(out[..2], [(0x2000, 0x1000), (0x2000, 0x1000)]);
}

#[test]
fn overlapping_regions_have_runs_of_their_own() {
    // Both regions leave the run below the exclusion; only one leaves that above.
    let map = [
        MemoryRegion::new(0, 10, MemoryKind::Usable),
        MemoryRegion::new(0, 20, MemoryKind::Usable),
    ];
    for room in 0..5usize {
        let mut out = vec![(7u64, 7u64); room];
        assert_eq!(free_runs(&map, &[(5, 7)], &mut out), 3);
        let mut expected = vec![(0, 5), (0, 5), (12, 8)];
        for run in &out[..room.min(3)] {
            let at = expected.iter().position(|r| r == run).expect("a run that does not exist");
            expected.remove(at);
        }
    }
}
