//! ACPI table walk: the RSDP, the RSDT and XSDT entry lists, and the
//! tables met along the walk, built byte by byte.

use lib::acpi::{acpi_table, is_mapped, rsdp_sdt, sdt_entries, AcpiState, MadtInfo};

/// Sets the byte that makes the first `len` bytes of `b` sum to zero.
fn fix_checksum(b: &mut [u8], at: usize, len: usize) {
    b[at] = 0;
    let sum = b[..len].iter().fold(0u8, |s, &x| s.wrapping_add(x));
    b[at] = 0u8.wrapping_sub(sum);
}

fn rsdp_v1(rsdt: u32) -> Vec<u8> {
    let mut r = vec![0u8; 20];
    r[..8].copy_from_slice(b"RSD PTR ");
    r[15] = 0;
    r[16..20].copy_from_slice(&rsdt.to_le_bytes());
    fix_checksum(&mut r, 8, 20);
    r
}

fn rsdp_v2(rsdt: u32, xsdt: u64) -> Vec<u8> {
    let mut r = vec![0u8; 36];
    r[..8].copy_from_slice(b"RSD PTR ");
    r[15] = 2;
    r[16..20].copy_from_slice(&rsdt.to_le_bytes());
    r[20..24].copy_from_slice(&36u32.to_le_bytes());
    r[24..32].copy_from_slice(&xsdt.to_le_bytes());
    fix_checksum(&mut r, 8, 36);
    r
}

fn header(sig: &[u8; 4], len: usize) -> Vec<u8> {
    let mut t = vec![0u8; len];
    t[..4].copy_from_slice(sig);
    t[4..8].copy_from_slice(&(len as u32).to_le_bytes());
    t
}

#[test]
fn rsdp_revision_one_gives_rsdt() {
    assert_eq!(rsdp_sdt(&rsdp_v1(0x07FE_0000)), Some((0x07FE_0000, false)));
}

#[test]
fn rsdp_revision_two_prefers_xsdt() {
    assert_eq!(rsdp_sdt(&rsdp_v2(0x1000, 0x2000)), Some((0x2000, true)));
    assert_eq!(rsdp_sdt(&rsdp_v2(0x1000, 0)), Some((0x1000, false)));
}

#[test]
fn rsdp_bad_checksum_or_short_refused() {
    let mut r = rsdp_v1(0x1000);
    r[9] ^= 1;
    assert_eq!(rsdp_sdt(&r), None);
    assert_eq!(rsdp_sdt(&r[..19]), None);
    let mut v2 = rsdp_v2(0x1000, 0x2000);
    v2[20..24].copy_from_slice(&100u32.to_le_bytes());
    assert_eq!(rsdp_sdt(&v2), None);
}

#[test]
fn rsdt_and_xsdt_entries() {
    let mut rsdt = header(b"RSDT", 36 + 8);
    rsdt[36..40].copy_from_slice(&0x1111u32.to_le_bytes());
    rsdt[40..44].copy_from_slice(&0x2222u32.to_le_bytes());
    assert_eq!(sdt_entries(&rsdt, false), vec![0x1111, 0x2222]);

    let mut xsdt = header(b"XSDT", 36 + 16);
    xsdt[36..44].copy_from_slice(&0x1_0000_0000u64.to_le_bytes());
    xsdt[44..52].copy_from_slice(&0x3333u64.to_le_bytes());
    assert_eq!(sdt_entries(&xsdt, true), vec![0x1_0000_0000, 0x3333]);
}

#[test]
fn sdt_with_bad_length_lists_nothing() {
    let mut t = header(b"RSDT", 40);
    t[4..8].copy_from_slice(&20u32.to_le_bytes());
    assert!(sdt_entries(&t, false).is_empty());
    t[4..8].copy_from_slice(&400u32.to_le_bytes());
    assert!(sdt_entries(&t, false).is_empty());
    assert!(sdt_entries(&t[..10], false).is_empty());
}

#[test]
fn fadt_sets_pm1a_and_gives_dsdt() {
    let mut state = AcpiState::new();
    let mut madt = MadtInfo::new();
    let mut fadt = header(b"FACP", 116);
    fadt[40..44].copy_from_slice(&0x0009_0000u32.to_le_bytes());
    fadt[64..68].copy_from_slice(&0x604u32.to_le_bytes());
    assert_eq!(acpi_table(&mut state, &mut madt, &fadt), Some(0x0009_0000));
    assert_eq!(state.pm1a_cnt_blk, 0x604);
    assert!(state.ready);
    assert_eq!(madt.cpu_count, 0);

    let mut fadt2 = header(b"FACP", 244);
    fadt2[40..44].copy_from_slice(&0x0009_0000u32.to_le_bytes());
    fadt2[64..68].copy_from_slice(&0xB004u32.to_le_bytes());
    fadt2[140..148].copy_from_slice(&0x0008_0000u64.to_le_bytes());
    let mut state2 = AcpiState::new();
    assert_eq!(acpi_table(&mut state2, &mut madt, &fadt2), Some(0x0008_0000));
    assert_eq!(state2.shutdown_command(), Some((0xB004, (0 << 2) | 0x2000)));
}

#[test]
fn madt_table_updates_processors_only() {
    let mut state = AcpiState::new();
    let mut madt = MadtInfo::new();
    let mut t = header(b"APIC", 44 + 8 + 8);
    t[36..40].copy_from_slice(&0xFEE0_0000u32.to_le_bytes());
    t[40..44].copy_from_slice(&1u32.to_le_bytes());
    for (k, id) in [(44usize, 0u8), (52, 3)] {
        t[k] = 0;
        t[k + 1] = 8;
        t[k + 3] = id;
        t[k + 4..k + 8].copy_from_slice(&1u32.to_le_bytes());
    }
    assert_eq!(acpi_table(&mut state, &mut madt, &t), None);
    assert_eq!(madt.cpu_count, 2);
    assert_eq!(&madt.cpu_apic_ids[..2], &[0, 3]);
    assert!(madt.pcat_compat);
    assert!(!state.ready);
}

#[test]
fn other_tables_change_nothing() {
    let mut state = AcpiState::new();
    let mut madt = MadtInfo::new();
    assert_eq!(acpi_table(&mut state, &mut madt, &header(b"HPET", 56)), None);
    assert_eq!(acpi_table(&mut state, &mut madt, &header(b"FACP", 60)), None);
    assert_eq!(acpi_table(&mut state, &mut madt, b"AP"), None);
    assert!(!state.ready);
    assert_eq!(madt.cpu_count, 0);
}

#[test]
fn mapped_limit_is_one_gibibyte() {
    assert!(is_mapped(0x3FFF_FFFF));
    assert!(!is_mapped(0x4000_0000));
}
