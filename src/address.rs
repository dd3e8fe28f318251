//! Addresses and page numbers of the SV39 scheme.
use vstd::prelude::*;
use crate::config::{PAGE_SIZE, PPN_LIMIT, VA_LIMIT, VPN_LIMIT};

verus! {

/// Page number of the page that holds byte address `a`.
pub open spec fn floor_spec(a: int) -> int {
    a / PAGE_SIZE as int
}

/// Page number of the first page boundary at or above byte address `a`.
pub open spec fn ceil_spec(a: int) -> int {
    (a + PAGE_SIZE as int - 1) / PAGE_SIZE as int
}

/// A virtual byte address.
#[derive(Clone, Copy, Debug, PartialEq, Eq, Structural)]
pub struct VirtAddr(pub u64);

/// A physical byte address.
#[derive(Clone, Copy, Debug, PartialEq, Eq, Structural)]
pub struct PhysAddr(pub u64);

/// A virtual page number.
#[derive(Clone, Copy, Debug, PartialEq, Eq, Structural)]
pub struct VirtPageNum(pub u64);

/// A physical page number.
#[derive(Clone, Copy, Debug, PartialEq, Eq, Structural)]
pub struct PhysPageNum(pub u64);

impl VirtAddr {
    /// Keeps the low 39 bits of `v`, the width of an SV39 virtual address.
    pub fn new(v: u64) -> (r: VirtAddr)
        ensures
            r.0 == v % VA_LIMIT,
    {
        VirtAddr(v % VA_LIMIT)
    }

    /// First byte address of page `vpn`.
    pub fn from_vpn(vpn: VirtPageNum) -> (r: VirtAddr)
        requires
            vpn.0 <= VPN_LIMIT,
        ensures
            r.0 == vpn.0 * PAGE_SIZE,
    {
        VirtAddr(vpn.0 * PAGE_SIZE)
    }

    /// Page that holds this address.
    pub fn floor(&self) -> (r: VirtPageNum)
        ensures
            r.0 == floor_spec(self.0 as int),
    {
        VirtPageNum(self.0 / PAGE_SIZE)
    }

    /// First page boundary at or above this address.
    pub fn ceil(&self) -> (r: VirtPageNum)
        ensures
            r.0 == ceil_spec(self.0 as int),
    {
        let q = self.0 / PAGE_SIZE;
        if self.0 % PAGE_SIZE == 0 {
            VirtPageNum(q)
        } else {
            VirtPageNum(q + 1)
        }
    }

    /// Offset of this address within its page.
    pub fn page_offset(&self) -> (r: u64)
        ensures
            r == self.0 % PAGE_SIZE,
    {
        self.0 % PAGE_SIZE
    }

    /// Whether this address is the first byte of a page.
    pub fn aligned(&self) -> (r: bool)
        ensures
            r == (self.0 % PAGE_SIZE == 0),
    {
        self.0 % PAGE_SIZE == 0
    }
}

impl PhysAddr {
    /// Page that holds this address.
    pub fn floor(&self) -> (r: PhysPageNum)
        ensures
            r.0 == floor_spec(self.0 as int),
    {
        PhysPageNum(self.0 / PAGE_SIZE)
    }
}

impl VirtPageNum {
    /// The three 9-bit indices that select an entry at each level of the walk,
    /// root level first.
    pub fn indexes(&self) -> (r: [u64; 3])
        ensures
            r@[0] == (self.0 / 0x4_0000) % 512,
            r@[1] == (self.0 / 512) % 512,
            r@[2] == self.0 % 512,
    {
        [(self.0 / 0x4_0000) % 512, (self.0 / 512) % 512, self.0 % 512]
    }

    /// Advances to the next page.
    pub fn step(&mut self)
        requires
            old(self).0 < u64::MAX,
        ensures
            final(self).0 == old(self).0 + 1,
    {
        self.0 = self.0 + 1;
    }
}

impl PhysPageNum {
    /// Keeps the low 44 bits of `v`, the width of a physical page number.
    pub fn new(v: u64) -> (r: PhysPageNum)
        ensures
            r.0 == v % PPN_LIMIT,
    {
        PhysPageNum(v % PPN_LIMIT)
    }
}

/// A half-open range of virtual page numbers.
#[derive(Clone, Copy, Debug, PartialEq, Eq, Structural)]
pub struct VPNRange {
    pub start: VirtPageNum,
    pub end: VirtPageNum,
}

impl VPNRange {
    pub fn new(start: VirtPageNum, end: VirtPageNum) -> (r: VPNRange)
        ensures
            r.start == start,
            r.end == end,
    {
        VPNRange { start, end }
    }

    pub fn get_start(&self) -> (r: VirtPageNum)
        ensures
            r == self.start,
    {
        self.start
    }

    pub fn get_end(&self) -> (r: VirtPageNum)
        ensures
            r == self.end,
    {
        self.end
    }

    /// Whether page `vpn` lies in the range.
    pub open spec fn contains_spec(&self, vpn: int) -> bool {
        self.start.0 <= vpn < self.end.0
    }
}

} // verus!
