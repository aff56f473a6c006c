use kalloc::address::VirtualAddress;
use kalloc::allocator::{AllocError, Allocator};
use kalloc::memory::{MemoryProperties, MemorySegment, MemoryUsage};
use kalloc::page::{Pointer, Table};
use kalloc::tables::PageTables;

const ROOT: u64 = 0x1000;
const L3: u64 = 0x2000;
const L2: u64 = 0x3000;
const L1: u64 = 0x4000;

/// Root, level-3, level-2 and level-1 tables chained for the null address,
/// with `missing` (1 to 4) left out of the chain, or 0 for none.
fn scaffold(missing: u8) -> PageTables {
    let mut root = Table::new();
    let mut l3 = Table::new();
    let mut l2 = Table::new();
    let mut l1 = Table::new();
    if missing != 4 {
        root.set_entry(0, Pointer(L3 | 0x3));
    }
    if missing != 3 {
        l3.set_entry(0, Pointer(L2 | 0x3));
    }
    if missing != 2 {
        l2.set_entry(0, Pointer(L1 | 0x3));
    }
    if missing != 1 {
        l1.set_entry(0, Pointer(0x5000 | 0x3));
    }
    let mut t = PageTables::new(ROOT, root);
    assert!(t.insert(L3, &l3));
    assert!(t.insert(L2, &l2));
    assert!(t.insert(L1, &l1));
    t
}

fn page(i: u64) -> u64 {
    0x100_0000 + i * 4096
}

#[test]
fn new_accepts_a_complete_scaffold() {
    let a = Allocator::new(scaffold(0)).unwrap();
    assert_eq!(a.last_free(), VirtualAddress::null());
    assert_eq!(a.last_page_table(), VirtualAddress::null());
}

#[test]
fn new_rejects_missing_level4_entry() {
    assert_eq!(Allocator::new(scaffold(4)).err(), Some(AllocError::ScaffoldInvalid));
}

#[test]
fn new_rejects_missing_level3_entry() {
    assert_eq!(Allocator::new(scaffold(3)).err(), Some(AllocError::ScaffoldInvalid));
}

#[test]
fn new_rejects_missing_level2_entry() {
    assert_eq!(Allocator::new(scaffold(2)).err(), Some(AllocError::ScaffoldInvalid));
}

#[test]
fn new_rejects_missing_level1_entry() {
    assert_eq!(Allocator::new(scaffold(1)).err(), Some(AllocError::ScaffoldInvalid));
}

#[test]
fn new_rejects_entry_without_present_bit() {
    let mut t = scaffold(0);
    t.write(0, 0, L3);
    assert_eq!(Allocator::new(t).err(), Some(AllocError::ScaffoldInvalid));
}

#[test]
fn new_rejects_a_chain_that_reuses_a_table() {
    let mut root = Table::new();
    root.set_entry(0, Pointer(L3 | 1));
    let mut l3 = Table::new();
    l3.set_entry(0, Pointer(L3 | 1));
    let mut t = PageTables::new(ROOT, root);
    assert!(t.insert(L3, &l3));
    assert_eq!(Allocator::new(t).err(), Some(AllocError::ScaffoldInvalid));
}

#[test]
fn allocate_returns_pages_in_reverse_order_of_reclaim() {
    let mut a = Allocator::new(scaffold(0)).unwrap();
    a.reclaim(page(1));
    a.reclaim(page(2));
    a.reclaim(page(3));
    assert_eq!(a.last_free(), VirtualAddress(3 * 4096));
    assert_eq!(a.allocate(), Ok(page(3)));
    assert_eq!(a.allocate(), Ok(page(2)));
    assert_eq!(a.allocate(), Ok(page(1)));
    assert_eq!(a.allocate(), Err(AllocError::OutOfMemory));
    assert_eq!(a.last_free(), VirtualAddress::null());
}

#[test]
fn allocate_on_a_fresh_allocator_is_out_of_memory() {
    let mut a = Allocator::new(scaffold(0)).unwrap();
    assert_eq!(a.allocate(), Err(AllocError::OutOfMemory));
}

#[test]
fn reclaimed_page_is_written_to_the_free_table() {
    let mut a = Allocator::new(scaffold(0)).unwrap();
    a.reclaim(page(7));
    let e = a.tables().page_entry(VirtualAddress(4096)).unwrap();
    assert_eq!(e.address(), page(7));
    assert!(e.0.present());
    assert_eq!(a.allocate(), Ok(page(7)));
    let e = a.tables().page_entry(VirtualAddress(4096)).unwrap();
    assert!(!e.0.present());
}

#[test]
fn discover_pages_takes_only_free_segments() {
    let p = 0x40_0000u64;
    let segs = vec![
        MemorySegment { page: p, count: 4, usage: MemoryUsage::Free, properties: MemoryProperties(7) },
        MemorySegment { page: 0x80_0000, count: 2, usage: MemoryUsage::Reserved, properties: MemoryProperties(1) },
        MemorySegment { page: 0x90_0000, count: 1, usage: MemoryUsage::Mmio, properties: MemoryProperties(3) },
    ];
    let mut a = Allocator::new(scaffold(0)).unwrap();
    a.discover_pages(&segs);
    assert_eq!(a.last_free(), VirtualAddress(4 * 4096));
    assert_eq!(a.allocate(), Ok(p + 12288));
    assert_eq!(a.allocate(), Ok(p + 8192));
    assert_eq!(a.allocate(), Ok(p + 4096));
    assert_eq!(a.allocate(), Ok(p));
    assert_eq!(a.allocate(), Err(AllocError::OutOfMemory));
}

#[test]
fn discover_pages_skips_allocator_and_unusable_segments() {
    let segs = vec![
        MemorySegment { page: 0x80_0000, count: 3, usage: MemoryUsage::Allocator, properties: MemoryProperties(0) },
        MemorySegment { page: 0x90_0000, count: 3, usage: MemoryUsage::Unusable, properties: MemoryProperties(0) },
        MemorySegment { page: 0xA0_0000, count: 0, usage: MemoryUsage::Free, properties: MemoryProperties(0) },
    ];
    let mut a = Allocator::new(scaffold(0)).unwrap();
    a.discover_pages(&segs);
    assert_eq!(a.allocate(), Err(AllocError::OutOfMemory));
}

#[test]
fn page_past_the_first_level1_table_becomes_a_table() {
    let mut a = Allocator::new(scaffold(0)).unwrap();
    for i in 1..=511 {
        a.reclaim(page(i));
    }
    assert_eq!(a.last_free(), VirtualAddress(511 * 4096));
    assert_eq!(a.last_page_table(), VirtualAddress::null());
    // Slot 512 lies in the next 2 MiB region: this page becomes its table.
    a.reclaim(page(512));
    assert_eq!(a.last_free(), VirtualAddress(511 * 4096));
    assert_eq!(a.last_page_table(), VirtualAddress(0x20_0000));
    assert!(a.tables().find(page(512)).is_some());
    a.reclaim(page(513));
    assert_eq!(a.last_free(), VirtualAddress(512 * 4096));
    assert!(a.last_free().page_table() <= a.last_page_table().page_table());
    assert_eq!(a.tables().page(VirtualAddress(512 * 4096)), page(513));
    assert_eq!(a.allocate(), Ok(page(513)));
    for i in (1..=511).rev() {
        assert_eq!(a.allocate(), Ok(page(i)));
    }
    assert_eq!(a.allocate(), Err(AllocError::OutOfMemory));
}

#[test]
fn cursor_boundary_never_passes_last_page_table() {
    let mut a = Allocator::new(scaffold(0)).unwrap();
    for i in 1..=1100 {
        a.reclaim(page(i));
        assert!(a.last_free().page_table() <= a.last_page_table().page_table());
    }
    // Pages 512 and 1025 became the level-1 tables for the regions at 2 MiB
    // and 4 MiB.
    assert_eq!(a.last_page_table(), VirtualAddress(0x40_0000));
    assert_eq!(a.last_free(), VirtualAddress(1098 * 4096));
    let mut handed_out = 0;
    while let Ok(p) = a.allocate() {
        assert!(p != page(512) && p != page(1025));
        handed_out += 1;
    }
    assert_eq!(handed_out, 1098);
}

#[test]
fn crossing_a_gigabyte_adds_a_level2_table_then_a_level1_table() {
    let mut a = Allocator::new(scaffold(0)).unwrap();
    // 511 slots in the first region, then one table page and 512 slots for
    // each of the next 511 regions: the free list then ends just below 1 GiB.
    let mut i: u64 = 1;
    while a.last_free().value() + 4096 < 0x4000_0000 {
        a.reclaim(page(i));
        i += 1;
    }
    assert_eq!(a.last_page_table(), VirtualAddress(0x4000_0000 - 0x20_0000));
    let l2_page = page(i);
    a.reclaim(l2_page);
    assert_eq!(a.last_page_table(), VirtualAddress(0x4000_0000 - 0x20_0000));
    let l1_page = page(i + 1);
    a.reclaim(l1_page);
    assert_eq!(a.last_page_table(), VirtualAddress(0x4000_0000));
    let first = page(i + 2);
    a.reclaim(first);
    assert_eq!(a.last_free(), VirtualAddress(0x4000_0000));
    assert_eq!(a.tables().page(VirtualAddress(0x4000_0000)), first);
    let l3 = a.tables().next(0, 0).unwrap();
    let l2 = a.tables().next(l3, 1).unwrap();
    assert_eq!(a.tables().find(l2_page), Some(l2));
    assert_eq!(a.allocate(), Ok(first));
    assert!(a.allocate().unwrap() != l1_page);
}

#[test]
fn reclaimed_pages_sit_in_present_leaf_entries() {
    let mut a = Allocator::new(scaffold(0)).unwrap();
    a.reclaim(page(1));
    a.reclaim(page(2));
    a.reclaim(page(3));
    for (slot, p) in [(4096u64, page(1)), (8192, page(2)), (12288, page(3))] {
        let e = a.tables().page_entry(VirtualAddress(slot)).unwrap();
        assert!(e.0.present());
        assert_eq!(e.address(), p);
    }
    assert_eq!(a.last_page_table(), VirtualAddress::null());
}

#[test]
fn discover_pages_without_free_segments_changes_nothing() {
    let segs = vec![
        MemorySegment { page: 0x80_0000, count: 2, usage: MemoryUsage::Reserved, properties: MemoryProperties(0) },
        MemorySegment { page: 0x90_0000, count: 1, usage: MemoryUsage::Mmio, properties: MemoryProperties(0) },
    ];
    let mut a = Allocator::new(scaffold(0)).unwrap();
    a.reclaim(page(1));
    let before = a.tables().page_entry(VirtualAddress(4096));
    a.discover_pages(&segs);
    assert_eq!(a.last_free(), VirtualAddress(4096));
    assert_eq!(a.last_page_table(), VirtualAddress::null());
    assert_eq!(a.tables().page_entry(VirtualAddress(4096)), before);
    assert_eq!(a.tables().frames(), 4);
}

#[test]
fn discover_pages_over_a_concatenation_matches_two_calls() {
    let s1 = vec![MemorySegment { page: 0x100_0000, count: 300, usage: MemoryUsage::Free, properties: MemoryProperties(0) }];
    let s2 = vec![
        MemorySegment { page: 0x200_0000, count: 5, usage: MemoryUsage::Reserved, properties: MemoryProperties(0) },
        MemorySegment { page: 0x300_0000, count: 400, usage: MemoryUsage::Free, properties: MemoryProperties(0) },
    ];
    let mut both = s1.clone();
    both.extend(s2.iter().copied());
    let mut a = Allocator::new(scaffold(0)).unwrap();
    a.discover_pages(&s1);
    a.discover_pages(&s2);
    let mut b = Allocator::new(scaffold(0)).unwrap();
    b.discover_pages(&both);
    assert_eq!(a.last_free(), b.last_free());
    assert_eq!(a.last_page_table(), b.last_page_table());
    // 700 pages offered; the 512th became the level-1 table at 2 MiB.
    assert_eq!(a.last_free(), VirtualAddress(699 * 4096));
    loop {
        let (x, y) = (a.allocate(), b.allocate());
        assert_eq!(x, y);
        if x.is_err() {
            break;
        }
    }
}
