use staros_pc::loader::paging::{
    gib_pages_supported, with_no_execute, MapError, PageTables, Rights, EFER_NXE, SIZE_1G, SIZE_2M,
    TABLE_ENTRIES,
};

const ADDRESS: u64 = 0x000F_FFFF_FFFF_F000;

/// Frames to build tables in.
fn frames(n: u64) -> Vec<u64> {
    (1..=n).map(|k| 0x100_0000 + k * 0x1000).collect()
}

fn tables(gib_pages: bool) -> PageTables {
    PageTables::new(0x100_0000, gib_pages)
}

/// What a processor makes of an address: where it leads, what it may do there,
/// and how large the page is.
fn translate(tables: &PageTables, v: u64) -> Option<(u64, Rights, u64)> {
    let mut table = 0;
    let mut rights = Rights { write: true, execute: true };
    for level in [3, 2, 1, 0] {
        let span = 0x1000u64 << (9 * level);
        let entry = tables.entry(table, (v / span) as usize % TABLE_ENTRIES).unwrap();
        if entry & 1 == 0 {
            return None;
        }
        rights.write &= entry & 2 != 0;
        rights.execute &= entry >> 63 == 0;
        if level == 0 || entry & 0x80 != 0 {
            return Some(((entry & ADDRESS) + v % span, rights, span));
        }
        table = (0..tables.table_count())
            .find(|&t| tables.frame(t) == Some(entry & ADDRESS))
            .expect("an entry leads to no table");
    }
    unreachable!()
}

#[test]
fn a_new_tree_maps_nothing() {
    let t = tables(true);
    assert_eq!(t.cr3(), 0x100_0000);
    assert_eq!(t.table_count(), 1);
    assert!(t.uses_gib_pages());
    for v in [0, 0x1000, 0x7FFF_FFFF_F000, u64::MAX] {
        assert_eq!(translate(&t, v), None);
    }
}

#[test]
fn one_page_takes_three_tables_and_maps_nothing_else() {
    let mut t = tables(true);
    let mut spare = frames(8);
    assert_eq!(t.map(&mut spare, 0x40_3000, 0x9000, 0x1000, Rights::ro()), Ok(()));
    assert_eq!(t.table_count(), 4);
    assert_eq!(spare.len(), 5);
    assert_eq!(translate(&t, 0x40_3ABC), Some((0x9ABC, Rights::ro(), 0x1000)));
    assert_eq!(translate(&t, 0x40_2FFF), None);
    assert_eq!(translate(&t, 0x40_4000), None);
}

#[test]
fn an_entry_carries_exactly_the_rights_that_were_asked() {
    let cases = [
        (Rights::ro(), 0x8000_0000_0000_9001),
        (Rights::rw(), 0x8000_0000_0000_9003),
        (Rights::rx(), 0x0000_0000_0000_9001),
    ];
    for (rights, entry) in cases {
        let mut t = tables(false);
        assert_eq!(t.map(&mut frames(3), 0, 0x9000, 0x1000, rights), Ok(()));
        assert_eq!(t.entry(3, 0), Some(entry));
        // The entries above it are permissive.
        assert_eq!(t.entry(0, 0).unwrap() & 0x8000_0000_0000_0FFF, 3);
    }
}

#[test]
fn the_largest_page_that_fits_is_used() {
    let mut t = tables(true);
    let mut spare = frames(8);
    let start = SIZE_1G - SIZE_2M - 0x1000;
    let size = SIZE_1G + 2 * SIZE_2M + 0x2000;
    assert_eq!(t.map(&mut spare, start, start, size, Rights::rw()), Ok(()));
    let sizes: Vec<u64> = [start, SIZE_1G - SIZE_2M, SIZE_1G, 2 * SIZE_1G, 2 * SIZE_1G + SIZE_2M]
        .iter()
        .map(|&v| {
            let (phys, rights, size) = translate(&t, v).unwrap();
            assert_eq!((phys, rights), (v, Rights::rw()));
            size
        })
        .collect();
    assert_eq!(sizes, [0x1000, SIZE_2M, SIZE_1G, SIZE_2M, 0x1000]);
    assert_eq!(translate(&t, start - 1), None);
    assert_eq!(translate(&t, start + size), None);
}

#[test]
fn a_processor_without_the_largest_pages_gets_smaller_ones() {
    let mut t = tables(false);
    assert_eq!(t.map(&mut frames(8), 0, 0, 2 * SIZE_1G, Rights::rw()), Ok(()));
    assert_eq!(translate(&t, SIZE_1G + 5), Some((SIZE_1G + 5, Rights::rw(), SIZE_2M)));
    assert_eq!(t.table_count(), 4);
}

#[test]
fn a_physical_address_that_is_not_as_aligned_limits_the_page_size() {
    let mut t = tables(true);
    assert_eq!(t.map(&mut frames(8), SIZE_1G, SIZE_2M, SIZE_1G, Rights::rw()), Ok(()));
    assert_eq!(translate(&t, SIZE_1G), Some((SIZE_2M, Rights::rw(), SIZE_2M)));
}

#[test]
fn a_request_that_is_not_whole_pages_is_refused_and_changes_nothing() {
    let mut t = tables(true);
    let mut spare = frames(4);
    for (v, p, s) in [(1, 0, 0x1000), (0, 0x800, 0x1000), (0, 0, 0x1001)] {
        assert_eq!(t.map(&mut spare, v, p, s, Rights::rw()), Err(MapError::Misaligned));
    }
    assert_eq!((t.table_count(), spare.len()), (1, 4));
    assert_eq!(MapError::Misaligned.stage(), "misaligned mapping request");
}

#[test]
fn a_page_inside_a_larger_one_collides() {
    let mut t = tables(true);
    let mut spare = frames(8);
    assert_eq!(t.map(&mut spare, 0, 0, SIZE_2M, Rights::rw()), Ok(()));
    assert_eq!(t.map(&mut spare, 0x1000, 0, 0x1000, Rights::rw()), Err(MapError::Collides));
    assert_eq!(translate(&t, 0x1000), Some((0x1000, Rights::rw(), SIZE_2M)));
    assert_eq!(MapError::Collides.stage(), "mapping collides with an existing large page");
}

#[test]
fn a_request_runs_out_of_frames_where_the_next_table_is_missing() {
    let mut t = tables(true);
    let mut spare = frames(3);
    let start = SIZE_2M - 0x1000;
    assert_eq!(
        t.map(&mut spare, start, 0, 0x2000, Rights::rw()),
        Err(MapError::OutOfFrames)
    );
    // What was mapped before it was refused stays.
    assert_eq!(translate(&t, start), Some((0, Rights::rw(), 0x1000)));
    assert_eq!(translate(&t, SIZE_2M), None);
    assert_eq!(MapError::OutOfFrames.stage(), "allocate page table");
}

#[test]
fn a_later_mapping_replaces_what_it_covers_and_keeps_the_rest() {
    let mut t = tables(true);
    let mut spare = frames(4);
    assert_eq!(t.map(&mut spare, 0, 0x8000, 0x3000, Rights::rw()), Ok(()));
    assert_eq!(t.map(&mut spare, 0x1000, 0x20_1000, 0x1000, Rights::rx()), Ok(()));
    assert_eq!(translate(&t, 0x0000), Some((0x8000, Rights::rw(), 0x1000)));
    assert_eq!(translate(&t, 0x1000), Some((0x20_1000, Rights::rx(), 0x1000)));
    assert_eq!(translate(&t, 0x2000), Some((0xA000, Rights::rw(), 0x1000)));
}

#[test]
fn the_last_page_of_the_address_space_can_be_mapped() {
    let mut t = tables(true);
    assert_eq!(t.map(&mut frames(3), u64::MAX - 0xFFF, 0x5000, 0x1000, Rights::ro()), Ok(()));
    assert_eq!(translate(&t, u64::MAX), Some((0x5FFF, Rights::ro(), 0x1000)));
}

#[test]
fn an_empty_request_is_granted_and_does_nothing() {
    let mut t = tables(true);
    assert_eq!(t.map(&mut Vec::new(), 0x1000, 0x1000, 0, Rights::rw()), Ok(()));
    assert_eq!(t.table_count(), 1);
}

#[test]
fn entries_that_do_not_exist_are_not_invented() {
    let t = tables(true);
    assert_eq!(t.entry(0, TABLE_ENTRIES), None);
    assert_eq!(t.entry(1, 0), None);
    assert_eq!(t.frame(1), None);
}

#[test]
fn a_feature_counts_only_where_its_leaf_exists() {
    assert!(gib_pages_supported(0x8000_0001, 1 << 26));
    assert!(gib_pages_supported(0x8000_0008, u32::MAX));
    assert!(!gib_pages_supported(0x8000_0000, 1 << 26));
    assert!(!gib_pages_supported(0x8000_0008, !(1 << 26)));
}

#[test]
fn the_no_execute_bit_is_enabled_and_nothing_else_changes() {
    assert_eq!(with_no_execute(0x500), 0x500 | EFER_NXE);
    assert_eq!(with_no_execute(0xD01), 0xD01);
}

#[test]
fn a_refused_request_can_be_repeated_with_more_frames() {
    let mut t = tables(true);
    let mut spare = frames(3);
    let start = SIZE_2M - 0x1000;
    let request = |t: &mut PageTables, spare: &mut Vec<u64>| {
        t.map(spare, start, 0x9000, 0x3000, Rights::rw())
    };
    assert_eq!(request(&mut t, &mut spare), Err(MapError::OutOfFrames));
    spare.push(0x200_0000);
    assert_eq!(request(&mut t, &mut spare), Ok(()));
    for off in [0, 0x1000, 0x2000] {
        assert_eq!(translate(&t, start + off), Some((0x9000 + off, Rights::rw(), 0x1000)));
    }
    assert!(spare.is_empty());
}

#[test]
fn tables_are_made_in_the_frames_that_were_handed_over() {
    let mut t = tables(true);
    let mut spare = frames(5);
    let given = spare.clone();
    assert_eq!(t.map(&mut spare, 0x40_3000, 0x9000, 0x1000, Rights::ro()), Ok(()));
    // Three tables, in the last three frames, the last of them first.
    assert_eq!(spare, given[..2]);
    assert_eq!(t.table_count(), 4);
    assert_eq!(t.frame(0), Some(0x100_0000));
    for (k, frame) in given[2..].iter().rev().enumerate() {
        assert_eq!(t.frame(k + 1), Some(*frame));
    }
    // A second page beside the first needs no table, and moves none.
    assert_eq!(t.map(&mut spare, 0x40_4000, 0xA000, 0x1000, Rights::ro()), Ok(()));
    assert_eq!((t.table_count(), spare.len()), (4, 2));
    assert_eq!(t.frame(1), Some(given[4]));
}

#[test]
fn a_request_is_refused_no_more_often_than_it_lacks_tables() {
    let mut t = tables(false);
    let mut spare = Vec::new();
    // Three tables for the first page, and one for every 2 MiB after it.
    let (start, size) = (SIZE_2M - 0x1000, 2 * SIZE_2M + 0x1000);
    let mut refusals = 0;
    let mut frame = 0x200_0000;
    while t.map(&mut spare, start, 0x1000, size, Rights::rw()) != Ok(()) {
        assert!(spare.is_empty());
        refusals += 1;
        spare.push(frame);
        frame += 0x1000;
    }
    assert_eq!(refusals, t.table_count() - 1);
    assert!(spare.is_empty());
    assert_eq!(translate(&t, start + size - 1).map(|m| m.0), Some(0x1000 + size - 1));
}

#[test]
fn a_refused_request_is_mapped_up_to_where_it_was_refused() {
    let mut t = tables(true);
    let mut spare = frames(6);
    assert_eq!(t.map(&mut spare, SIZE_2M, 0, SIZE_2M, Rights::rw()), Ok(()));
    let start = SIZE_2M - 0x2000;
    assert_eq!(t.map(&mut spare, start, 0x5000, 0x3000, Rights::ro()), Err(MapError::Collides));
    assert_eq!(translate(&t, start), Some((0x5000, Rights::ro(), 0x1000)));
    assert_eq!(translate(&t, start + 0x1000), Some((0x6000, Rights::ro(), 0x1000)));
    assert_eq!(translate(&t, SIZE_2M), Some((0, Rights::rw(), SIZE_2M)));
}

#[test]
fn small_pages_stay_small_however_well_aligned() {
    let mut t = tables(true);
    let mut spare = frames(4);
    assert_eq!(t.map_small(&mut spare, SIZE_2M, SIZE_2M, SIZE_2M, Rights::rx()), Ok(()));
    for off in [0, 0x1000, SIZE_2M - 0x1000] {
        assert_eq!(
            translate(&t, SIZE_2M + off),
            Some((SIZE_2M + off, Rights::rx(), 0x1000))
        );
    }
    assert_eq!(translate(&t, 2 * SIZE_2M), None);
    assert_eq!((t.table_count(), spare.len()), (4, 1));
    assert_eq!(
        t.map_small(&mut spare, 1, 0, 0x1000, Rights::rx()),
        Err(MapError::Misaligned)
    );
}

#[test]
fn an_entry_says_nothing_that_was_not_asked() {
    let mut t = tables(true);
    let mut spare = frames(8);
    assert_eq!(t.map(&mut spare, SIZE_1G, 0, SIZE_1G, Rights::rw()), Ok(()));
    assert_eq!(t.map(&mut spare, SIZE_2M, SIZE_2M, SIZE_2M, Rights::rx()), Ok(()));
    assert_eq!(t.map(&mut spare, 0x5000, 0x7000, 0x1000, Rights::ro()), Ok(()));
    let no_execute = 1 << 63;
    let found: Vec<u64> = (0..t.table_count())
        .flat_map(|k| (0..TABLE_ENTRIES).map(move |i| (k, i)))
        .filter_map(|(k, i)| t.entry(k, i))
        .filter(|e| *e != 0 && (0..t.table_count()).all(|k| t.frame(k) != Some(e - 3)))
        .collect();
    let mut expected = vec![no_execute | 0x83, SIZE_2M | 0x81, no_execute | 0x7001];
    let mut found_sorted = found.clone();
    found_sorted.sort_unstable();
    expected.sort_unstable();
    assert_eq!(found_sorted, expected);
}
