//! Decomposition of 64-bit addresses into four 9-bit table indices and a
//! 12-bit offset.
use vstd::prelude::*;

verus! {

/// Size in bytes of one page.
pub const PAGE_SIZE: u64 = 4096;

/// Span in bytes covered by one level-1 table (2 MiB).
pub const PAGE_TABLE_SPAN: u64 = 0x20_0000;

/// Bits 12..=51: the page-number part of an address.
pub const PAGE_MASK: u64 = 0x000F_FFFF_FFFF_F000;

/// Bits 21..=51: the part of an address above one level-1 table's span.
pub const PAGE_TABLE_MASK: u64 = 0x000F_FFFF_FFE0_0000;

/// Bytes addressed through the four table levels (2^48).
pub const ADDRESS_SPACE: u64 = 0x1_0000_0000_0000;

/// The power of two at which the index of `level` (1 to 4) starts.
pub open spec fn level_shift(level: int) -> nat {
    if level == 4 {
        0x80_0000_0000
    } else if level == 3 {
        0x4000_0000
    } else if level == 2 {
        0x20_0000
    } else {
        0x1000
    }
}

/// The 9-bit table index that `a` selects at `level`.
pub open spec fn index_of(a: u64, level: int) -> nat {
    ((a as nat) / level_shift(level)) % 512
}

/// The low 12 bits of `a`.
pub open spec fn offset_of(a: u64) -> nat {
    (a as nat) % 4096
}

/// `a` with its offset and every bit above bit 51 cleared.
pub open spec fn page_of(a: u64) -> int {
    (a as nat) % 0x10_0000_0000_0000 - (a as nat) % 4096
}

/// `a` with its offset, its level-1 index and every bit above bit 51 cleared.
pub open spec fn page_table_of(a: u64) -> int {
    (a as nat) % 0x10_0000_0000_0000 - (a as nat) % 0x20_0000
}

/// The address whose four indices and offset are the given fields.
pub open spec fn compose(i4: nat, i3: nat, i2: nat, i1: nat, offset: nat) -> nat {
    i4 * 0x80_0000_0000 + i3 * 0x4000_0000 + i2 * 0x20_0000 + i1 * 0x1000 + offset
}

/// A 64-bit virtual or physical address.
#[derive(Copy, Clone, Debug, PartialEq, Eq, Structural)]
pub struct VirtualAddress(pub u64);

impl VirtualAddress {
    /// The null address.
    pub fn null() -> (r: VirtualAddress)
        ensures
            r.0 == 0,
    {
        VirtualAddress(0)
    }

    /// The address as an integer.
    pub fn value(self) -> (r: u64)
        ensures
            r == self.0,
    {
        self.0
    }

    /// Steps to the next page-sized slot.
    pub fn increment_page(&mut self)
        requires
            old(self).0 + PAGE_SIZE <= u64::MAX,
        ensures
            final(self).0 == old(self).0 + PAGE_SIZE,
    {
        self.0 = self.0 + PAGE_SIZE;
    }

    /// Index into the level-4 table.
    pub fn level4_entry(self) -> (r: usize)
        ensures
            r == index_of(self.0, 4),
            r < 512,
    {
        let a = self.0;
        assert((a >> 39u64) & 0x1FF == (a / 0x80_0000_0000) % 512) by (bit_vector);
        ((a >> 39u64) & 0x1FF) as usize
    }

    /// Index into the level-3 table.
    pub fn level3_entry(self) -> (r: usize)
        ensures
            r == index_of(self.0, 3),
            r < 512,
    {
        let a = self.0;
        assert((a >> 30u64) & 0x1FF == (a / 0x4000_0000) % 512) by (bit_vector);
        ((a >> 30u64) & 0x1FF) as usize
    }

    /// Index into the level-2 table.
    pub fn level2_entry(self) -> (r: usize)
        ensures
            r == index_of(self.0, 2),
            r < 512,
    {
        let a = self.0;
        assert((a >> 21u64) & 0x1FF == (a / 0x20_0000) % 512) by (bit_vector);
        ((a >> 21u64) & 0x1FF) as usize
    }

    /// Index into the level-1 table.
    pub fn level1_entry(self) -> (r: usize)
        ensures
            r == index_of(self.0, 1),
            r < 512,
    {
        let a = self.0;
        assert((a >> 12u64) & 0x1FF == (a / 0x1000) % 512) by (bit_vector);
        ((a >> 12u64) & 0x1FF) as usize
    }

    /// Byte offset within the page.
    pub fn offset(self) -> (r: usize)
        ensures
            r == offset_of(self.0),
    {
        let a = self.0;
        assert(a & 0xFFF == a % 4096) by (bit_vector);
        (a & 0xFFF) as usize
    }

    /// The start of the page holding this address.
    pub fn page(self) -> (r: u64)
        ensures
            r == page_of(self.0),
    {
        let a = self.0;
        assert(a & 0x000F_FFFF_FFFF_F000 == a % 0x10_0000_0000_0000 - a % 4096) by (bit_vector);
        a & PAGE_MASK
    }

    /// The start of the 2 MiB span that one level-1 table covers.
    pub fn page_table(self) -> (r: u64)
        ensures
            r == page_table_of(self.0),
    {
        let a = self.0;
        assert(a & 0x000F_FFFF_FFE0_0000 == a % 0x10_0000_0000_0000 - a % 0x20_0000)
            by (bit_vector);
        a & PAGE_TABLE_MASK
    }
}

/// Recombining the four table indices and the offset of an address below
/// 2^48 gives back that address.
pub proof fn lemma_round_trip(a: u64)
    requires
        a < ADDRESS_SPACE,
    ensures
        compose(index_of(a, 4), index_of(a, 3), index_of(a, 2), index_of(a, 1), offset_of(a))
            == a,
{
    assert(((a / 0x80_0000_0000) % 512) * 0x80_0000_0000 + ((a / 0x4000_0000) % 512)
        * 0x4000_0000 + ((a / 0x20_0000) % 512) * 0x20_0000 + ((a / 0x1000) % 512) * 0x1000 + a
        % 4096 == a) by (bit_vector)
        requires
            a < 0x1_0000_0000_0000u64,
    ;
}

/// Two addresses that agree on every bit from the start of the level-`level`
/// index upward select the same slot of a table at that level.
pub proof fn lemma_aliasing(a: u64, b: u64, level: int)
    requires
        1 <= level <= 4,
        (a as nat) / level_shift(level) == (b as nat) / level_shift(level),
    ensures
        index_of(a, level) == index_of(b, level),
{
}

} // verus!
