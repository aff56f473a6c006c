//! Hardware-format page-table entries and 512-entry tables.
use vstd::prelude::*;
use crate::address::{index_of, VirtualAddress, PAGE_MASK};

verus! {

/// Entry flag: the entry references a table or page.
pub const PRESENT: u64 = 0x1;

/// Entry flag: writes are allowed through the entry.
pub const WRITE: u64 = 0x2;

/// Entry flag: user mode may access through the entry.
pub const USER: u64 = 0x4;

/// Entry flag: write-through caching.
pub const WRITE_THROUGH: u64 = 0x8;

/// Entry flag: caching enabled.
pub const CACHE: u64 = 0x10;

/// Entry flag: set by hardware on access.
pub const ACCESSED: u64 = 0x20;

/// Clears the address field of an entry word, keeping every other bit.
pub const FLAG_MASK: u64 = 0xFFF0_0000_0000_0FFF;

/// Number of entries in one table.
pub const ENTRIES: usize = 512;

/// Whether flag bit `bit` is set in `w`.
pub open spec fn has_flag(w: u64, bit: u64) -> bool {
    w & bit != 0
}

/// The address field of entry word `w`.
pub open spec fn address_field(w: u64) -> u64 {
    w & PAGE_MASK
}

/// `w` with its address field replaced by the page bits of `a`.
pub open spec fn with_address(w: u64, a: u64) -> u64 {
    (w & FLAG_MASK) | (a & PAGE_MASK)
}

/// Whether `w` is present and names a non-null address.
pub open spec fn points(w: u64) -> bool {
    has_flag(w, PRESENT) && address_field(w) != 0
}

/// A page-table entry word of any level: control bits 0..=11, address bits
/// 12..=51.
#[derive(Copy, Clone, Debug, PartialEq, Eq, Structural)]
pub struct Pointer(pub u64);

impl Pointer {
    pub fn present(self) -> (r: bool)
        ensures
            r == has_flag(self.0, PRESENT),
    {
        self.0 & PRESENT != 0
    }

    pub fn set_present(&mut self)
        ensures
            final(self).0 == old(self).0 | PRESENT,
    {
        self.0 = self.0 | PRESENT;
    }

    pub fn unset_present(&mut self)
        ensures
            final(self).0 == old(self).0 & !PRESENT,
    {
        self.0 = self.0 & !PRESENT;
    }

    pub fn write(self) -> (r: bool)
        ensures
            r == has_flag(self.0, WRITE),
    {
        self.0 & WRITE != 0
    }

    pub fn set_write(&mut self)
        ensures
            final(self).0 == old(self).0 | WRITE,
    {
        self.0 = self.0 | WRITE;
    }

    pub fn unset_write(&mut self)
        ensures
            final(self).0 == old(self).0 & !WRITE,
    {
        self.0 = self.0 & !WRITE;
    }

    pub fn user(self) -> (r: bool)
        ensures
            r == has_flag(self.0, USER),
    {
        self.0 & USER != 0
    }

    pub fn set_user(&mut self)
        ensures
            final(self).0 == old(self).0 | USER,
    {
        self.0 = self.0 | USER;
    }

    pub fn unset_user(&mut self)
        ensures
            final(self).0 == old(self).0 & !USER,
    {
        self.0 = self.0 & !USER;
    }

    pub fn write_through(self) -> (r: bool)
        ensures
            r == has_flag(self.0, WRITE_THROUGH),
    {
        self.0 & WRITE_THROUGH != 0
    }

    pub fn set_write_through(&mut self)
        ensures
            final(self).0 == old(self).0 | WRITE_THROUGH,
    {
        self.0 = self.0 | WRITE_THROUGH;
    }

    pub fn unset_write_through(&mut self)
        ensures
            final(self).0 == old(self).0 & !WRITE_THROUGH,
    {
        self.0 = self.0 & !WRITE_THROUGH;
    }

    pub fn cache(self) -> (r: bool)
        ensures
            r == has_flag(self.0, CACHE),
    {
        self.0 & CACHE != 0
    }

    pub fn set_cache(&mut self)
        ensures
            final(self).0 == old(self).0 | CACHE,
    {
        self.0 = self.0 | CACHE;
    }

    pub fn unset_cache(&mut self)
        ensures
            final(self).0 == old(self).0 & !CACHE,
    {
        self.0 = self.0 & !CACHE;
    }

    pub fn accessed(self) -> (r: bool)
        ensures
            r == has_flag(self.0, ACCESSED),
    {
        self.0 & ACCESSED != 0
    }

    pub fn set_accessed(&mut self)
        ensures
            final(self).0 == old(self).0 | ACCESSED,
    {
        self.0 = self.0 | ACCESSED;
    }

    pub fn unset_accessed(&mut self)
        ensures
            final(self).0 == old(self).0 & !ACCESSED,
    {
        self.0 = self.0 & !ACCESSED;
    }

    /// The referenced address: bits 12..=51.
    pub fn address(self) -> (r: u64)
        ensures
            r == address_field(self.0),
    {
        self.0 & PAGE_MASK
    }

    /// Replaces the address field by the page bits of `a`; the flag bits and
    /// the reserved high bits stay as they were.
    pub fn set_address(&mut self, a: u64)
        ensures
            final(self).0 == with_address(old(self).0, a),
    {
        self.0 = (self.0 & FLAG_MASK) | (a & PAGE_MASK);
    }
}

/// Setting the address keeps every flag bit, and reads back as the page bits
/// of the address given.
pub proof fn lemma_set_address(w: u64, a: u64, bit: u64)
    requires
        bit == PRESENT || bit == WRITE || bit == USER || bit == WRITE_THROUGH || bit == CACHE
            || bit == ACCESSED,
    ensures
        has_flag(with_address(w, a), bit) == has_flag(w, bit),
        address_field(with_address(w, a)) == a & PAGE_MASK,
{
    assert(((w & 0xFFF0_0000_0000_0FFF) | (a & 0x000F_FFFF_FFFF_F000)) & 0x000F_FFFF_FFFF_F000
        == a & 0x000F_FFFF_FFFF_F000) by (bit_vector);
    assert(bit & 0xFFF0_0000_0000_0FFF == bit && bit & 0x000F_FFFF_FFFF_F000 == 0 ==> ((((w
        & 0xFFF0_0000_0000_0FFF) | (a & 0x000F_FFFF_FFFF_F000)) & bit != 0) == (w & bit != 0)))
        by (bit_vector);
    assert(bit & 0xFFF0_0000_0000_0FFF == bit && bit & 0x000F_FFFF_FFFF_F000 == 0)
        by (bit_vector)
        requires
            bit == 1u64 || bit == 2u64 || bit == 4u64 || bit == 8u64 || bit == 16u64 || bit
                == 32u64,
    ;
}

/// A Page Mode Level-4 Entry (PML4E): references a level-3 table.
#[derive(Copy, Clone, Debug, PartialEq, Eq, Structural)]
pub struct Level4Entry(pub Pointer);

impl Level4Entry {
    /// The physical address of the level-3 table.
    pub fn address(&self) -> (r: u64)
        ensures
            r == address_field(self.0.0),
    {
        self.0.address()
    }

    /// Points the entry at the level-3 table at `table`.
    pub fn set_address(&mut self, table: u64)
        ensures
            final(self).0.0 == with_address(old(self).0.0, table),
    {
        self.0.set_address(table);
    }
}

/// A Page Directory Pointer Entry (PDPTE): references a level-2 table.
#[derive(Copy, Clone, Debug, PartialEq, Eq, Structural)]
pub struct Level3Entry(pub Pointer);

impl Level3Entry {
    /// The physical address of the level-2 table.
    pub fn address(&self) -> (r: u64)
        ensures
            r == address_field(self.0.0),
    {
        self.0.address()
    }

    /// Points the entry at the level-2 table at `table`.
    pub fn set_address(&mut self, table: u64)
        ensures
            final(self).0.0 == with_address(old(self).0.0, table),
    {
        self.0.set_address(table);
    }
}

/// A Page Directory Entry (PDE): references a level-1 table.
#[derive(Copy, Clone, Debug, PartialEq, Eq, Structural)]
pub struct Level2Entry(pub Pointer);

impl Level2Entry {
    /// The physical address of the level-1 table.
    pub fn address(&self) -> (r: u64)
        ensures
            r == address_field(self.0.0),
    {
        self.0.address()
    }

    /// Points the entry at the level-1 table at `table`.
    pub fn set_address(&mut self, table: u64)
        ensures
            final(self).0.0 == with_address(old(self).0.0, table),
    {
        self.0.set_address(table);
    }
}

/// A Page Table Entry (PTE): references a page.
#[derive(Copy, Clone, Debug, PartialEq, Eq, Structural)]
pub struct Level1Entry(pub Pointer);

impl Level1Entry {
    /// The physical address of the page.
    pub fn address(&self) -> (r: u64)
        ensures
            r == address_field(self.0.0),
    {
        self.0.address()
    }

    /// Points the entry at the page at `page`.
    pub fn set_address(&mut self, page: u64)
        ensures
            final(self).0.0 == with_address(old(self).0.0, page),
    {
        self.0.set_address(page);
    }
}

/// One page-sized table of 512 entry words.
pub struct Table {
    entries: Vec<u64>,
}

impl View for Table {
    type V = Seq<u64>;

    closed spec fn view(&self) -> Seq<u64> {
        self.entries@
    }
}

impl Table {
    /// Every table holds exactly 512 entries.
    pub open spec fn wf(&self) -> bool {
        self@.len() == 512
    }

    /// A table whose entries are all zero (none present).
    pub fn new() -> (r: Table)
        ensures
            r.wf(),
            forall|i: int| 0 <= i < 512 ==> r@[i] == 0,
    {
        let mut entries: Vec<u64> = Vec::new();
        while entries.len() < ENTRIES
            invariant
                entries@.len() <= 512,
                forall|i: int| 0 <= i < entries@.len() ==> entries@[i] == 0,
            decreases 512 - entries@.len(),
        {
            entries.push(0);
        }
        Table { entries }
    }

    /// The entry at `index`.
    pub fn entry(&self, index: usize) -> (r: Pointer)
        requires
            self.wf(),
            index < 512,
        ensures
            r.0 == self@[index as int],
    {
        Pointer(self.entries[index])
    }

    /// Overwrites the entry at `index`.
    pub fn set_entry(&mut self, index: usize, e: Pointer)
        requires
            old(self).wf(),
            index < 512,
        ensures
            final(self)@ == old(self)@.update(index as int, e.0),
            final(self).wf(),
    {
        self.entries.set(index, e.0);
    }

    /// The entry that `address` selects in a table of level `level` (1 to 4).
    pub fn slot(&self, address: VirtualAddress, level: u8) -> (r: Pointer)
        requires
            self.wf(),
            1 <= level <= 4,
        ensures
            r.0 == self@[index_of(address.0, level as int) as int],
    {
        let index = if level == 4 {
            address.level4_entry()
        } else if level == 3 {
            address.level3_entry()
        } else if level == 2 {
            address.level2_entry()
        } else {
            address.level1_entry()
        };
        self.entry(index)
    }
}

} // verus!
