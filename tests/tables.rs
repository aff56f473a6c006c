use kalloc::address::VirtualAddress;
use kalloc::page::{Pointer, Table};
use kalloc::tables::PageTables;

fn chain() -> PageTables {
    let mut root = Table::new();
    root.set_entry(1, Pointer(0x2000 | 1));
    let mut l3 = Table::new();
    l3.set_entry(2, Pointer(0x3000 | 1));
    let mut l2 = Table::new();
    l2.set_entry(3, Pointer(0x4000 | 1));
    let mut l1 = Table::new();
    l1.set_entry(4, Pointer(0xABC_D000 | 0x3));
    let mut t = PageTables::new(0x1000, root);
    assert!(t.insert(0x2000, &l3));
    assert!(t.insert(0x3000, &l2));
    assert!(t.insert(0x4000, &l1));
    t
}

fn mapped() -> VirtualAddress {
    VirtualAddress((1u64 << 39) | (2 << 30) | (3 << 21) | (4 << 12) | 0x123)
}

#[test]
fn walk_reaches_the_level1_entry() {
    let t = chain();
    let e = t.page_entry(mapped()).unwrap();
    assert_eq!(e.address(), 0xABC_D000);
    assert_eq!(t.page(mapped()), 0xABC_D000);
    assert_eq!(t.physical(mapped()), 0xABC_D123);
}

#[test]
fn walk_stops_at_an_absent_level() {
    let t = chain();
    let other = VirtualAddress((1u64 << 39) | (2 << 30) | (5 << 21));
    assert!(t.page_entry(other).is_none());
    assert_eq!(t.page(other), 0);
    assert_eq!(t.physical(VirtualAddress(0x7)), 0x7);
    assert!(t.walk_frame(VirtualAddress(0)).is_none());
}

#[test]
fn walk_does_not_follow_non_present_entries() {
    let mut t = chain();
    t.write(1, 2, 0x3000);
    assert!(t.page_entry(mapped()).is_none());
}

#[test]
fn insert_refuses_bad_or_taken_addresses() {
    let mut t = chain();
    assert!(!t.insert(0x2000, &Table::new()));
    assert!(!t.insert(0x5001, &Table::new()));
    assert!(!t.insert(0, &Table::new()));
    assert!(!t.insert(0x10_0000_0000_0000, &Table::new()));
    assert_eq!(t.frames(), 4);
    assert!(t.insert(0x5000, &Table::new()));
    assert_eq!(t.frames(), 5);
    assert_eq!(t.find(0x5000), Some(4));
    assert_eq!(t.find(0x6000), None);
    assert_eq!(t.next(0, 1), Some(1));
    assert_eq!(t.next(0, 0), None);
    assert_eq!(t.read(3, 4), 0xABC_D003);
}
