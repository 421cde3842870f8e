//! Physical and virtual addresses and page numbers.
use super::config::PAGE_SIZE;
use vstd::prelude::*;

verus! {

/// A physical address.
#[derive(PartialEq, Eq, Structural, Clone, Copy)]
pub struct PhysAddr(pub usize);

/// A physical page number.
#[derive(PartialEq, Eq, Structural, Clone, Copy)]
pub struct PhysPageNum(pub usize);

/// A virtual address.
#[derive(PartialEq, Eq, Structural, Clone, Copy)]
pub struct VirtAddr(pub usize);

/// A virtual page number.
#[derive(PartialEq, Eq, Structural, Clone, Copy)]
pub struct VirtPageNum(pub usize);

/// The number of the page holding byte `a`.
pub open spec fn page_floor(a: int) -> int {
    a / PAGE_SIZE as int
}

/// The number of the first page at or after byte `a`.
pub open spec fn page_ceil(a: int) -> int {
    (a + PAGE_SIZE - 1) / PAGE_SIZE as int
}

impl PhysAddr {
    /// The page that holds this address.
    pub fn floor(&self) -> (r: PhysPageNum)
        ensures
            r.0 == page_floor(self.0 as int),
    {
        PhysPageNum(self.0 / PAGE_SIZE)
    }

    /// The first page that starts at or after this address.
    pub fn ceil(&self) -> (r: PhysPageNum)
        ensures
            r.0 == page_ceil(self.0 as int),
    {
        if self.0 == 0 {
            PhysPageNum(0)
        } else {
            PhysPageNum((self.0 - 1) / PAGE_SIZE + 1)
        }
    }
}

impl VirtAddr {
    /// The page that holds this address.
    pub fn floor(&self) -> (r: VirtPageNum)
        ensures
            r.0 == page_floor(self.0 as int),
    {
        VirtPageNum(self.0 / PAGE_SIZE)
    }

    /// The offset of the address inside its page.
    pub fn page_offset(&self) -> (r: usize)
        ensures
            r == self.0 % PAGE_SIZE,
    {
        self.0 % PAGE_SIZE
    }

    /// The first page that starts at or after this address.
    pub fn ceil(&self) -> (r: VirtPageNum)
        ensures
            r.0 == page_ceil(self.0 as int),
    {
        if self.0 == 0 {
            VirtPageNum(0)
        } else {
            VirtPageNum((self.0 - 1) / PAGE_SIZE + 1)
        }
    }
}

/// The virtual pages `[start, end)`.
#[derive(PartialEq, Eq, Structural, Clone, Copy)]
pub struct VPNRange {
    pub start: VirtPageNum,
    pub end: VirtPageNum,
}

impl VPNRange {
    /// The pages from `start` up to, not including, `end`.
    pub fn new(start: VirtPageNum, end: VirtPageNum) -> (r: Self)
        ensures
            r.start == start,
            r.end == end,
    {
        VPNRange { start, end }
    }
}

} // verus!
