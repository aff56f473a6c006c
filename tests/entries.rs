use kalloc::address::VirtualAddress;
use kalloc::memory::MemoryProperties;
use kalloc::page::{Level1Entry, Level2Entry, Level3Entry, Level4Entry, Pointer, Table};

#[test]
fn flags_are_independent_bits() {
    let mut p = Pointer(0);
    p.set_present();
    assert!(p.present());
    assert_eq!(p.0, 0x1);
    p.set_write();
    assert!(p.write());
    p.set_user();
    assert!(p.user());
    p.set_write_through();
    assert!(p.write_through());
    p.set_cache();
    assert!(p.cache());
    p.set_accessed();
    assert!(p.accessed());
    assert_eq!(p.0, 0x3F);
    p.unset_write();
    assert!(!p.write());
    assert!(p.present() && p.user() && p.write_through() && p.cache() && p.accessed());
    p.unset_present();
    p.unset_user();
    p.unset_write_through();
    p.unset_cache();
    p.unset_accessed();
    assert_eq!(p.0, 0);
}

#[test]
fn set_address_keeps_flags_and_masks_low_bits() {
    let mut e = Level1Entry(Pointer(0x23));
    e.set_address(0x1234_5ABC);
    assert_eq!(e.address(), 0x1234_5000);
    assert_eq!(e.0 .0, 0x1234_5023);
    let mut e4 = Level4Entry(Pointer(0x8000_0000_0000_0001));
    e4.set_address(0x7000);
    assert_eq!(e4.address(), 0x7000);
    assert_eq!(e4.0 .0, 0x8000_0000_0000_7001);
    let mut e3 = Level3Entry(Pointer(0x1_0000_0007));
    e3.set_address(0x2000);
    assert_eq!(e3.0 .0, 0x2007);
    let mut e2 = Level2Entry(Pointer(0));
    e2.set_address(0xF_FFFF_FFFF_FFFF);
    assert_eq!(e2.address(), 0xF_FFFF_FFFF_F000);
}

#[test]
fn table_slots_follow_the_address_indices() {
    let mut t = Table::new();
    for i in 0..512 {
        assert_eq!(t.entry(i).0, 0);
    }
    t.set_entry(7, Pointer(0x7001));
    t.set_entry(9, Pointer(0x9001));
    let a = VirtualAddress((7u64 << 21) | (9 << 12));
    assert_eq!(t.slot(a, 2).0, 0x7001);
    assert_eq!(t.slot(a, 1).0, 0x9001);
    assert_eq!(t.slot(a, 4).0, 0);
    let b = VirtualAddress((7u64 << 21) | (9 << 12) | 0xFFF);
    assert_eq!(t.slot(b, 1), t.slot(a, 1));
}

#[test]
fn memory_properties_queries() {
    let rw = MemoryProperties(MemoryProperties::READ | MemoryProperties::WRITE);
    let r = MemoryProperties(MemoryProperties::READ);
    let x = MemoryProperties(MemoryProperties::EXECUTE);
    assert!(rw.all(r));
    assert!(!r.all(rw));
    assert!(rw.any(r));
    assert!(!rw.any(x));
    assert!(rw.none(x));
    assert!(!rw.none(r));
    assert!(rw.all(MemoryProperties(0)));
}
