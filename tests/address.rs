use kalloc::address::VirtualAddress;

fn recompose(a: VirtualAddress) -> u64 {
    ((a.level4_entry() as u64) << 39)
        | ((a.level3_entry() as u64) << 30)
        | ((a.level2_entry() as u64) << 21)
        | ((a.level1_entry() as u64) << 12)
        | a.offset() as u64
}

#[test]
fn round_trip_of_indices_and_offset() {
    for v in [0u64, 1, 0xFFF, 0x1000, 0x20_0000, 0x4000_0000, 0x80_0000_0000, 0xFFFF_FFFF_FFFF, 0x1234_5678_9ABC] {
        assert_eq!(recompose(VirtualAddress(v)), v);
    }
}

#[test]
fn round_trip_drops_bits_above_47() {
    assert_eq!(recompose(VirtualAddress(0x1_0000_0000_0000)), 0);
}

#[test]
fn indices_of_a_known_address() {
    let a = VirtualAddress((3u64 << 39) | (5 << 30) | (7 << 21) | (9 << 12) | 0xABC);
    assert_eq!(a.level4_entry(), 3);
    assert_eq!(a.level3_entry(), 5);
    assert_eq!(a.level2_entry(), 7);
    assert_eq!(a.level1_entry(), 9);
    assert_eq!(a.offset(), 0xABC);
}

#[test]
fn page_and_page_table_boundaries() {
    let a = VirtualAddress(0xFFF0_0000_1234_5678);
    assert_eq!(a.page(), 0x0000_0000_1234_5000);
    assert_eq!(a.page_table(), 0x0000_0000_1220_0000);
    assert_eq!(VirtualAddress(0x3FFFFF).page_table(), 0x200000);
}

#[test]
fn increment_page_adds_a_page() {
    let mut a = VirtualAddress::null();
    a.increment_page();
    assert_eq!(a.value(), 4096);
    a.increment_page();
    assert_eq!(a, VirtualAddress(8192));
}

#[test]
fn addresses_differing_below_a_level_share_its_index() {
    let a = VirtualAddress(0x0000_1234_5670_0000);
    let b = VirtualAddress(0x0000_1234_5670_0000 | 0x1F_FFFF);
    assert_eq!(a.level2_entry(), b.level2_entry());
    assert_eq!(a.level3_entry(), b.level3_entry());
    assert_eq!(a.level4_entry(), b.level4_entry());
    assert_ne!(a.level1_entry(), b.level1_entry());
}
