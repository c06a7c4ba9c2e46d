//! Virtual memory: pages, physical frames, memory objects and address regions.
use vstd::prelude::*;

pub mod pmem;
pub mod vmar;
pub mod vmo;

verus! {

/// Physical address.
pub type PhysAddr = usize;

/// Virtual address.
pub type VirtAddr = usize;

/// Device-visible address.
pub type DevVAddr = usize;

/// Size of one page in bytes.
pub const PAGE_SIZE: usize = 4096;

/// Whether `x` is a multiple of the page size.
pub open spec fn page_aligned_spec(x: int) -> bool {
    x % 4096 == 0
}

/// Number of pages needed to hold `size` bytes.
pub open spec fn pages_spec(size: int) -> int {
    (size + 4095) / 4096
}

/// Whether `x` is a multiple of the page size.
pub fn page_aligned(x: usize) -> (r: bool)
    ensures
        r == page_aligned_spec(x as int),
{
    x % PAGE_SIZE == 0
}

/// Number of pages needed to hold `size` bytes, rounding up.
pub fn pages(size: usize) -> (r: usize)
    ensures
        r == pages_spec(size as int),
        r * 4096 >= size,
        r * 4096 < size + 4096,
{
    let whole: usize = size / PAGE_SIZE;
    if size % PAGE_SIZE == 0 {
        whole
    } else {
        whole + 1
    }
}

/// `x` rounded down to a page boundary.
pub fn round_down_page(x: usize) -> (r: usize)
    ensures
        r == (x as int / 4096) * 4096,
        page_aligned_spec(r as int),
        r <= x < r + 4096,
{
    x / PAGE_SIZE * PAGE_SIZE
}

/// Access permissions of a mapping, one bit each.
#[derive(Clone, Copy, Debug, PartialEq, Eq, Structural)]
pub struct MMUFlags {
    /// The permission bits.
    pub bits: u32,
}

impl MMUFlags {
    /// The memory may be read.
    pub const READ: u32 = 0x1;

    /// The memory may be written.
    pub const WRITE: u32 = 0x2;

    /// The memory may be executed.
    pub const EXECUTE: u32 = 0x4;

    /// Whether every permission in the mask `other` is in `self`.
    pub open spec fn contains_spec(&self, other: u32) -> bool {
        self.bits & other == other
    }

    /// No permission.
    pub fn empty() -> (f: MMUFlags)
        ensures
            f.bits == 0,
    {
        MMUFlags { bits: 0 }
    }

    /// The permissions with the given bits.
    pub fn from_bits(bits: u32) -> (f: MMUFlags)
        ensures
            f.bits == bits,
    {
        MMUFlags { bits }
    }

    /// Whether every permission in the mask `other` is in `self`.
    pub fn contains(&self, other: u32) -> (r: bool)
        ensures
            r == self.contains_spec(other),
    {
        self.bits & other == other
    }

    /// Adds the permissions in the mask `other`.
    pub fn insert(&mut self, other: u32)
        ensures
            final(self).bits == old(self).bits | other,
    {
        self.bits = self.bits | other;
    }
}

} // verus!
