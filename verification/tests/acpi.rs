use staros_pc::acpi::{
    checksum_ok, Directory, EcamWindow, Hpet, Madt, MadtEntry, Mcfg, Rsdp, SdtHeader, RSDP_SIGNATURE,
    RSDP_V1_LEN, RSDP_V2_LEN, SDT_HEADER_LEN,
};

/// Set the checksum byte of a table so that the whole of it sums to zero.
fn fix_checksum(table: &mut [u8], checksum_off: usize, len: usize) {
    table[checksum_off] = 0;
    let sum = table[..len].iter().fold(0u8, |a, &b| a.wrapping_add(b));
    table[checksum_off] = sum.wrapping_neg();
}

fn rsdp_v2(xsdt: u64) -> [u8; RSDP_V2_LEN] {
    let mut r = [0u8; RSDP_V2_LEN];
    r[0..8].copy_from_slice(&RSDP_SIGNATURE);
    r[9..15].copy_from_slice(b"STAROS");
    r[15] = 2; // revision
    r[16..20].copy_from_slice(&0xDEAD_0000u32.to_le_bytes()); // RSDT
    r[20..24].copy_from_slice(&(RSDP_V2_LEN as u32).to_le_bytes());
    r[24..32].copy_from_slice(&xsdt.to_le_bytes());
    fix_checksum(&mut r, 8, RSDP_V1_LEN); // the first twenty bytes
    fix_checksum(&mut r, 32, RSDP_V2_LEN); // all thirty-six
    // Fixing the extended checksum must not disturb the first one.
    assert!(checksum_ok(&r[..RSDP_V1_LEN]));
    r
}

/// A table: signature, body after the header, checksum fixed.
fn table(sig: &[u8; 4], body: &[u8]) -> Vec<u8> {
    let len = SDT_HEADER_LEN + body.len();
    let mut t = vec![0u8; len];
    t[0..4].copy_from_slice(sig);
    t[4..8].copy_from_slice(&(len as u32).to_le_bytes());
    t[8] = 1; // revision
    t[10..16].copy_from_slice(b"STAROS");
    t[16..24].copy_from_slice(b"STARPC01");
    t[SDT_HEADER_LEN..].copy_from_slice(body);
    fix_checksum(&mut t, 9, len);
    t
}

/// How many entries a walk over `m` takes.
fn count_entries(m: &Madt<'_>) -> usize {
    let mut walk = m.entries();
    let mut n = 0;
    while walk.next().is_some() {
        n += 1;
    }
    n
}

#[test]
fn a_v2_rsdp_prefers_the_xsdt() {
    let r = Rsdp::parse(&rsdp_v2(0x7FFF_0000)).expect("valid RSDP");
    assert_eq!(r.revision, 2);
    assert_eq!(r.xsdt, 0x7FFF_0000);
    assert_eq!(&r.oem_id, b"STAROS");
    assert_eq!(r.directory(), Some((0x7FFF_0000, 8)), "64-bit entries");
}

#[test]
fn a_v1_rsdp_falls_back_to_the_rsdt_with_narrow_entries() {
    let mut r = [0u8; RSDP_V1_LEN];
    r[0..8].copy_from_slice(&RSDP_SIGNATURE);
    r[15] = 0; // revision 0: no XSDT at all
    r[16..20].copy_from_slice(&0x000E_0000u32.to_le_bytes());
    fix_checksum(&mut r, 8, RSDP_V1_LEN);
    let p = Rsdp::parse(&r).expect("valid v1 RSDP");
    assert_eq!(p.xsdt, 0);
    assert_eq!(p.directory(), Some((0x000E_0000, 4)), "32-bit entries");
}

#[test]
fn a_v2_rsdp_with_a_broken_extended_checksum_is_rejected() {
    // The first twenty bytes still sum correctly.
    let mut r = rsdp_v2(0x7FFF_0000);
    r[33] ^= 0xff;
    assert!(checksum_ok(&r[..RSDP_V1_LEN]), "the v1 checksum still passes");
    assert_eq!(Rsdp::parse(&r), None);
}

#[test]
fn a_wrong_signature_or_a_short_buffer_is_not_an_rsdp() {
    let mut r = rsdp_v2(1);
    r[0] = b'X';
    assert_eq!(Rsdp::parse(&r), None);
    assert_eq!(Rsdp::parse(&rsdp_v2(1)[..RSDP_V1_LEN - 1]), None);
}

#[test]
fn a_root_pointer_with_no_tables_names_no_directory() {
    let mut r = rsdp_v2(0);
    r[16..20].copy_from_slice(&0u32.to_le_bytes());
    fix_checksum(&mut r, 8, RSDP_V1_LEN);
    fix_checksum(&mut r, 32, RSDP_V2_LEN);
    let p = Rsdp::parse(&r).expect("valid RSDP");
    assert_eq!(p.rsdt, 0);
    assert_eq!(p.directory(), None);
}

#[test]
fn a_declared_length_below_the_full_structure_is_not_an_rsdp() {
    let mut r = rsdp_v2(0x7FFF_0000);
    r[20..24].copy_from_slice(&20u32.to_le_bytes());
    fix_checksum(&mut r, 32, RSDP_V2_LEN);
    assert_eq!(Rsdp::parse(&r), None);
}

#[test]
fn an_xsdt_lists_its_tables() {
    let mut body = Vec::new();
    for addr in [0x1000u64, 0x2000, 0x3000] {
        body.extend_from_slice(&addr.to_le_bytes());
    }
    let t = table(b"XSDT", &body);
    let d = Directory::parse(&t, 8).expect("valid XSDT");
    assert_eq!(d.len(), 3);
    assert!(!d.is_empty());
    assert_eq!(d.iter(), vec![0x1000, 0x2000, 0x3000]);
}

#[test]
fn an_rsdt_lists_its_tables_with_narrow_entries() {
    let mut body = Vec::new();
    for addr in [0x1000u32, 0xFFFF_F000] {
        body.extend_from_slice(&addr.to_le_bytes());
    }
    let t = table(b"RSDT", &body);
    let d = Directory::parse(&t, 4).expect("valid RSDT");
    assert_eq!(d.iter(), vec![0x1000, 0xFFFF_F000]);
    assert_eq!(d.entry(1), Some(0xFFFF_F000));
    assert_eq!(d.entry(usize::MAX), None);
    assert!(Directory::parse(&t, 8).is_none());
}

#[test]
fn a_directory_with_only_a_header_is_empty() {
    let t = table(b"XSDT", &[]);
    let d = Directory::parse(&t, 8).expect("valid XSDT");
    assert!(d.is_empty());
    assert_eq!(d.iter(), Vec::<u64>::new());
}

#[test]
fn an_xsdt_read_as_an_rsdt_is_refused_rather_than_halved() {
    let t = table(b"XSDT", &0x1234_5678_9abc_def0u64.to_le_bytes());
    assert_eq!(Directory::parse(&t, 4).map(|d| d.len()), None);
}

#[test]
fn a_trailing_partial_entry_is_ignored_not_read() {
    // One whole pointer and three stray bytes.
    let mut body = 0x4000u64.to_le_bytes().to_vec();
    body.extend_from_slice(&[0xaa, 0xbb, 0xcc]);
    let t = table(b"XSDT", &body);
    let d = Directory::parse(&t, 8).expect("valid XSDT");
    assert_eq!(d.len(), 1);
    assert_eq!(d.entry(1), None);
}

#[test]
fn a_corrupt_table_checksum_is_rejected() {
    let mut t = table(b"XSDT", &0x1000u64.to_le_bytes());
    t[30] ^= 0xff;
    assert_eq!(SdtHeader::parse(&t), None);
    assert!(Directory::parse(&t, 8).is_none());
}

#[test]
fn a_length_field_longer_than_the_buffer_is_rejected() {
    let mut t = table(b"XSDT", &0x1000u64.to_le_bytes());
    t[4..8].copy_from_slice(&0xFFFF_u32.to_le_bytes());
    assert_eq!(SdtHeader::parse(&t), None);
}

#[test]
fn a_header_reports_its_own_fields() {
    let t = table(b"APIC", &[7u8; 12]);
    let h = SdtHeader::parse(&t).expect("valid table");
    assert_eq!(&h.signature, b"APIC");
    assert_eq!(h.length, 48);
    assert_eq!(h.revision, 1);
    assert_eq!(&h.oem_table_id, b"STARPC01");
    assert!(h.is(b"APIC"));
    assert!(!h.is(b"APIX"));
}

/// A table shaped like a four-core PC's: four local APICs of which one is
/// disabled, one I/O APIC, and the override every PC has.
fn madt() -> Vec<u8> {
    let mut body = Vec::new();
    body.extend_from_slice(&0xFEE0_0000u32.to_le_bytes()); // local APIC address
    body.extend_from_slice(&1u32.to_le_bytes()); // flags: legacy PICs present
    for (acpi, apic, enabled) in [(0u8, 0u8, 1u32), (1, 1, 1), (2, 2, 1), (3, 3, 0)] {
        body.extend_from_slice(&[0, 8, acpi, apic]);
        body.extend_from_slice(&enabled.to_le_bytes());
    }
    body.extend_from_slice(&[1, 12, 2, 0]); // I/O APIC, id 2
    body.extend_from_slice(&0xFEC0_0000u32.to_le_bytes());
    body.extend_from_slice(&0u32.to_le_bytes()); // GSI base 0
    body.extend_from_slice(&[2, 10, 0, 0]); // override: bus 0, IRQ 0
    body.extend_from_slice(&2u32.to_le_bytes()); // -> GSI 2
    body.extend_from_slice(&[0, 0]); // flags
    table(b"APIC", &body)
}

#[test]
fn a_madt_yields_the_enabled_cpus_only() {
    let t = madt();
    let m = Madt::parse(&t).expect("valid MADT");
    assert_eq!(m.local_apic_address, 0xFEE0_0000);
    assert!(m.has_legacy_pics, "8259s must be masked before trusting the APICs");

    let mut cpus = [0u32; 8];
    assert_eq!(m.cpus(&mut cpus), 3, "the disabled CPU is not startable");
    assert_eq!(&cpus[..3], &[0, 1, 2]);
}

#[test]
fn cpus_reports_the_true_count_even_when_the_buffer_is_too_small() {
    let t = madt();
    let m = Madt::parse(&t).unwrap();
    let mut only_two = [0u32; 2];
    assert_eq!(m.cpus(&mut only_two), 3, "count is not clipped to the buffer");
    assert_eq!(only_two, [0, 1]);
}

#[test]
fn the_io_apic_and_the_irq0_override_are_read_not_assumed() {
    let t = madt();
    let m = Madt::parse(&t).unwrap();
    assert_eq!(m.first_io_apic(), Some((0xFEC0_0000, 0)));
    assert_eq!(m.gsi_for_irq(0), 2, "the PIT arrives on GSI 2 on a real PC");
    assert_eq!(m.gsi_for_irq(4), 4, "no override means identity");
}

#[test]
fn an_x2apic_entry_is_decoded() {
    let mut body = Vec::new();
    body.extend_from_slice(&0xFEE0_0000u32.to_le_bytes());
    body.extend_from_slice(&0u32.to_le_bytes());
    body.extend_from_slice(&[9, 16, 0, 0]); // x2APIC entry
    body.extend_from_slice(&300u32.to_le_bytes()); // apic id past 255
    body.extend_from_slice(&1u32.to_le_bytes()); // enabled
    body.extend_from_slice(&7u32.to_le_bytes()); // acpi id
    let t = table(b"APIC", &body);
    let m = Madt::parse(&t).unwrap();
    let mut cpus = [0u32; 4];
    assert_eq!(m.cpus(&mut cpus), 1);
    assert_eq!(cpus[0], 300);
}

#[test]
fn every_entry_kind_is_decoded_field_by_field() {
    let mut body = vec![0u8; 8];
    body.extend_from_slice(&[0, 8, 5, 6, 1, 0, 0, 0]);
    body.extend_from_slice(&[1, 12, 2, 0, 0, 0, 0xC0, 0xFE, 24, 0, 0, 0]);
    body.extend_from_slice(&[2, 10, 0, 9, 9, 0, 0, 0, 0x0D, 0x01]);
    body.extend_from_slice(&[4, 6, 0xFF, 0x05, 0x02, 1]);
    body.extend_from_slice(&[9, 16, 0, 0, 44, 1, 0, 0, 0, 0, 0, 0, 7, 0, 0, 0]);
    body.extend_from_slice(&[0, 4, 5, 6]); // too short for a local APIC
    let t = table(b"APIC", &body);
    let m = Madt::parse(&t).unwrap();
    assert!(!m.has_legacy_pics);
    let mut walk = m.entries();
    assert_eq!(
        walk.next(),
        Some(MadtEntry::LocalApic { acpi_id: 5, apic_id: 6, enabled: true })
    );
    assert_eq!(
        walk.next(),
        Some(MadtEntry::IoApic { id: 2, address: 0xFEC0_0000, gsi_base: 24 })
    );
    assert_eq!(
        walk.next(),
        Some(MadtEntry::InterruptOverride { bus: 0, source_irq: 9, gsi: 9, flags: 0x010D })
    );
    assert_eq!(
        walk.next(),
        Some(MadtEntry::LocalApicNmi { acpi_id: 0xFF, flags: 0x0205, lint: 1 })
    );
    assert_eq!(
        walk.next(),
        Some(MadtEntry::LocalX2Apic { apic_id: 300, acpi_id: 7, enabled: false })
    );
    assert_eq!(walk.next(), Some(MadtEntry::Other { entry_type: 0 }));
    assert_eq!(walk.next(), None);
    assert_eq!(walk.next(), None);
}

#[test]
fn a_zero_length_madt_entry_ends_the_walk_instead_of_spinning() {
    let mut body = vec![0u8; 8];
    body.extend_from_slice(&[0, 0, 0, 0]); // type 0, length 0
    let t = table(b"APIC", &body);
    let m = Madt::parse(&t).unwrap();
    assert_eq!(count_entries(&m), 0);
}

#[test]
fn an_entry_claiming_to_run_past_the_table_is_dropped() {
    let mut body = vec![0u8; 8];
    body.extend_from_slice(&[1, 200, 0, 0]); // length 200 in a 4-byte tail
    let t = table(b"APIC", &body);
    let m = Madt::parse(&t).unwrap();
    assert_eq!(count_entries(&m), 0);
    assert_eq!(m.first_io_apic(), None);
}

#[test]
fn an_unknown_entry_type_advances_the_walk_rather_than_stopping_it() {
    let mut body = vec![0u8; 8];
    body.extend_from_slice(&[0x42, 6, 0, 0, 0, 0]); // unknown, well-formed
    body.extend_from_slice(&[1, 12, 5, 0]); // then a real I/O APIC
    body.extend_from_slice(&0xFEC0_1000u32.to_le_bytes());
    body.extend_from_slice(&24u32.to_le_bytes());
    let t = table(b"APIC", &body);
    let m = Madt::parse(&t).unwrap();
    assert_eq!(count_entries(&m), 2);
    assert_eq!(m.first_io_apic(), Some((0xFEC0_1000, 24)));
}

#[test]
fn an_mcfg_yields_ecam_windows_and_config_addresses() {
    let mut body = vec![0u8; 8]; // reserved
    body.extend_from_slice(&0xE000_0000u64.to_le_bytes());
    body.extend_from_slice(&0u16.to_le_bytes()); // segment
    body.extend_from_slice(&[0, 255]); // buses 0..=255
    body.extend_from_slice(&[0, 0, 0, 0]); // reserved
    let t = table(b"MCFG", &body);
    let m = Mcfg::parse(&t).expect("valid MCFG");
    let w: Vec<_> = m.windows();
    assert_eq!(w.len(), 1);
    assert_eq!(w[0].base, 0xE000_0000);
    assert_eq!(w[0].bus_end, 255);
    // bus 1, device 2, function 3
    assert_eq!(
        w[0].config_address(1, 2, 3),
        Some(0xE000_0000 + (1 << 20) + (2 << 15) + (3 << 12)),
    );
}

#[test]
fn a_bus_outside_the_window_has_no_config_address() {
    let w = EcamWindow { base: 0xE000_0000, segment: 0, bus_start: 8, bus_end: 15 };
    assert_eq!(w.config_address(7, 0, 0), None);
    assert_eq!(w.config_address(16, 0, 0), None);
    assert_eq!(w.config_address(8, 32, 0), None, "device numbers are 5 bits");
    assert_eq!(w.config_address(8, 0, 8), None, "function numbers are 3 bits");
    // The first bus of a window is at its base, not at base + bus<<20.
    assert_eq!(w.config_address(8, 0, 0), Some(0xE000_0000));
}

#[test]
fn a_window_past_the_last_address_has_no_config_address_there() {
    let w = EcamWindow { base: u64::MAX - 0xFFF, segment: 0, bus_start: 0, bus_end: 255 };
    assert_eq!(w.config_address(0, 0, 0), Some(u64::MAX - 0xFFF));
    assert_eq!(w.config_address(0, 0, 1), None);
    assert_eq!(w.config_address(255, 31, 7), None);
}

#[test]
fn neighbouring_functions_have_neighbouring_config_spaces() {
    let w = EcamWindow { base: 0xE000_0000, segment: 0, bus_start: 0, bus_end: 1 };
    assert_eq!(w.config_address(0, 0, 1), Some(0xE000_1000));
    assert_eq!(w.config_address(0, 1, 0), Some(0xE000_8000));
    assert_eq!(w.config_address(0, 31, 7), Some(0xE00F_F000));
    assert_eq!(w.config_address(1, 0, 0), Some(0xE010_0000));
}

#[test]
fn an_hpet_table_gives_its_register_base() {
    let mut body = vec![0u8; 20];
    body[8..16].copy_from_slice(&0xFED0_0000u64.to_le_bytes()); // table offset 44
    body[16] = 0; // HPET number, table offset 52
    body[17..19].copy_from_slice(&14318u16.to_le_bytes());
    let t = table(b"HPET", &body);
    let h = Hpet::parse(&t).expect("valid HPET");
    assert_eq!(h.address, 0xFED0_0000);
    assert_eq!(h.min_tick, 14318);
    assert!(Hpet::parse(&table(b"HPET", &[0u8; 19])).is_none());
}

#[test]
fn tables_are_matched_by_signature_not_by_position() {
    let apic = madt();
    assert!(Mcfg::parse(&apic).is_none());
    assert!(Hpet::parse(&apic).is_none());
    assert!(Directory::parse(&apic, 8).is_none());
}

#[test]
fn truncating_any_table_at_any_point_never_panics() {
    for t in [madt(), table(b"MCFG", &[0u8; 24]), table(b"XSDT", &[0u8; 16])] {
        for n in 0..t.len() {
            let prefix = &t[..n];
            let _ = SdtHeader::parse(prefix);
            let _ = Directory::parse(prefix, 8);
            if let Some(m) = Madt::parse(prefix) {
                let _ = count_entries(&m);
            }
            if let Some(m) = Mcfg::parse(prefix) {
                let _ = m.windows().len();
            }
            let _ = Hpet::parse(prefix);
        }
    }
}

#[test]
fn corrupting_any_single_byte_never_panics() {
    let base = madt();
    for i in 0..base.len() {
        let mut t = base.clone();
        t[i] ^= 0xff;
        if let Some(m) = Madt::parse(&t) {
            let _ = count_entries(&m);
            let mut cpus = [0u32; 4];
            let _ = m.cpus(&mut cpus);
            let _ = m.gsi_for_irq(0);
        }
    }
}
