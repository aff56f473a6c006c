//! Firmware-reported runs of physical pages.
use vstd::prelude::*;

verus! {

/// What a run of pages is used for.
#[derive(Copy, Clone, Debug, PartialEq, Eq, Structural)]
pub enum MemoryUsage {
    /// Owned by the firmware.
    Reserved,
    /// Already backing the allocator's own tables.
    Allocator,
    /// Free for the allocator to take.
    Free,
    /// Broken memory.
    Unusable,
    /// Device-mapped memory.
    Mmio,
}

/// Access properties of a run of pages: a set of `READ`, `WRITE` and
/// `EXECUTE` bits.
#[derive(Copy, Clone, Debug, PartialEq, Eq, Structural)]
pub struct MemoryProperties(pub u32);

impl MemoryProperties {
    pub const READ: u32 = 1;
    pub const WRITE: u32 = 2;
    pub const EXECUTE: u32 = 4;

    /// Whether every bit of `bits` is set.
    pub fn all(self, bits: Self) -> (r: bool)
        ensures
            r == (self.0 & bits.0 == bits.0),
    {
        self.0 & bits.0 == bits.0
    }

    /// Whether no bit of `bits` is set.
    pub fn none(self, bits: Self) -> (r: bool)
        ensures
            r == (self.0 & bits.0 == 0),
    {
        self.0 & bits.0 == 0
    }

    /// Whether some bit of `bits` is set.
    pub fn any(self, bits: Self) -> (r: bool)
        ensures
            r == (self.0 & bits.0 > 0),
    {
        self.0 & bits.0 > 0
    }
}

/// One contiguous run of `count` pages starting at the page address `page`.
#[derive(Copy, Clone, Debug, PartialEq, Eq, Structural)]
pub struct MemorySegment {
    pub page: u64,
    pub count: usize,
    pub usage: MemoryUsage,
    pub properties: MemoryProperties,
}

/// The pages a segment offers the allocator, in ascending order: all of its
/// pages when it is free, none otherwise.
pub open spec fn segment_pages(s: MemorySegment) -> Seq<u64> {
    if s.usage == MemoryUsage::Free {
        Seq::new(s.count as nat, |i: int| (s.page + i * 4096) as u64)
    } else {
        Seq::empty()
    }
}

/// The pages that a sequence of segments offers, segment by segment.
pub open spec fn offered_pages(segs: Seq<MemorySegment>) -> Seq<u64>
    decreases segs.len(),
{
    if segs.len() == 0 {
        Seq::empty()
    } else {
        segment_pages(segs[0]) + offered_pages(segs.skip(1))
    }
}

/// A free segment lies in the 52-bit physical address space, starts on a
/// non-null page boundary, and so names only page addresses.
pub open spec fn segment_ok(s: MemorySegment) -> bool {
    s.usage == MemoryUsage::Free ==> s.page != 0 && s.page % 4096 == 0 && s.page + s.count * 4096
        <= 0x10_0000_0000_0000
}

} // verus!
