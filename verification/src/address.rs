//! SV39 address arithmetic: physical and virtual addresses, page numbers,
//! and the page ranges that address spaces are built from.
//!
//! Physical addresses are 56-bit, virtual addresses 39-bit truncated
//! integers; page numbers are addresses divided by the 4 KiB page size.
//! The four wrappers are deliberately distinct types: no conversion
//! happens without an explicit, validated call.

use vstd::prelude::*;

use crate::config::PAGE_SIZE;

verus! {

/// One past the greatest 56-bit physical address.
pub const PA_LIMIT: u64 = 0x100_0000_0000_0000;

/// One past the greatest 39-bit virtual address.
pub const VA_LIMIT: u64 = 0x80_0000_0000;

/// One past the greatest 44-bit physical page number.
pub const PPN_LIMIT: u64 = 0x1000_0000_0000;

/// One past the greatest 27-bit virtual page number.
pub const VPN_LIMIT: u64 = 0x800_0000;

/// A 56-bit physical address.
#[derive(Clone, Copy, Debug, PartialEq, Eq, Structural)]
pub struct PhysAddr(pub u64);

/// A 39-bit virtual address.
#[derive(Clone, Copy, Debug, PartialEq, Eq, Structural)]
pub struct VirtAddr(pub u64);

/// A 44-bit physical page number.
#[derive(Clone, Copy, Debug, PartialEq, Eq, Structural)]
pub struct PhysPageNum(pub u64);

/// A 27-bit virtual page number.
#[derive(Clone, Copy, Debug, PartialEq, Eq, Structural)]
pub struct VirtPageNum(pub u64);

impl PhysAddr {
    /// Within the 56-bit physical address width.
    pub open spec fn wf(self) -> bool {
        self.0 < PA_LIMIT
    }

    /// Builds a physical address from a raw value, keeping the low 56 bits.
    pub fn new(v: u64) -> (r: PhysAddr)
        ensures
            r.0 == v % PA_LIMIT,
            r.wf(),
    {
        PhysAddr(v % PA_LIMIT)
    }

    /// Offset of this address within its page.
    pub fn page_offset(&self) -> (r: u64)
        ensures
            r == self.0 % PAGE_SIZE,
    {
        self.0 % PAGE_SIZE
    }

    /// Number of the page holding this address.
    pub fn floor(&self) -> (r: PhysPageNum)
        ensures
            r.0 == self.0 / PAGE_SIZE,
    {
        PhysPageNum(self.0 / PAGE_SIZE)
    }

    /// Number of the first page boundary at or above this address.
    pub fn ceil(&self) -> (r: PhysPageNum)
        requires
            self.wf(),
        ensures
            r.0 == (self.0 + PAGE_SIZE - 1) / (PAGE_SIZE as int),
    {
        PhysPageNum((self.0 + (PAGE_SIZE - 1)) / PAGE_SIZE)
    }
}

impl VirtAddr {
    /// Within the 39-bit virtual address width.
    pub open spec fn wf(self) -> bool {
        self.0 < VA_LIMIT
    }

    /// Builds a virtual address from a raw value, keeping the low 39 bits.
    pub fn new(v: u64) -> (r: VirtAddr)
        ensures
            r.0 == v % VA_LIMIT,
            r.wf(),
    {
        VirtAddr(v % VA_LIMIT)
    }

    /// Offset of this address within its page.
    pub fn page_offset(&self) -> (r: u64)
        ensures
            r == self.0 % PAGE_SIZE,
    {
        self.0 % PAGE_SIZE
    }

    /// Number of the page holding this address.
    pub fn floor(&self) -> (r: VirtPageNum)
        ensures
            r.0 == self.0 / PAGE_SIZE,
    {
        VirtPageNum(self.0 / PAGE_SIZE)
    }

    /// Number of the first page boundary at or above this address.
    pub fn ceil(&self) -> (r: VirtPageNum)
        requires
            self.wf(),
        ensures
            r.0 == (self.0 + PAGE_SIZE - 1) / (PAGE_SIZE as int),
    {
        VirtPageNum((self.0 + (PAGE_SIZE - 1)) / PAGE_SIZE)
    }
}

impl PhysPageNum {
    /// Within the 44-bit physical page number width.
    pub open spec fn wf(self) -> bool {
        self.0 < PPN_LIMIT
    }

    /// Builds a physical page number from a raw value, keeping the low
    /// 44 bits.
    pub fn new(v: u64) -> (r: PhysPageNum)
        ensures
            r.0 == v % PPN_LIMIT,
            r.wf(),
    {
        PhysPageNum(v % PPN_LIMIT)
    }

    /// First physical address of this page.
    pub fn addr(&self) -> (r: PhysAddr)
        requires
            self.wf(),
        ensures
            r.0 == self.0 * PAGE_SIZE,
            r.wf(),
    {
        PhysAddr(self.0 * PAGE_SIZE)
    }
}

impl VirtPageNum {
    /// Within the 27-bit virtual page number width.
    pub open spec fn wf(self) -> bool {
        self.0 < VPN_LIMIT
    }

    /// Builds a virtual page number from a raw value, keeping the low
    /// 27 bits.
    pub fn new(v: u64) -> (r: VirtPageNum)
        ensures
            r.0 == v % VPN_LIMIT,
            r.wf(),
    {
        VirtPageNum(v % VPN_LIMIT)
    }

    /// First virtual address of this page.
    pub fn addr(&self) -> (r: VirtAddr)
        requires
            self.wf(),
        ensures
            r.0 == self.0 * PAGE_SIZE,
            r.wf(),
    {
        VirtAddr(self.0 * PAGE_SIZE)
    }

    /// The three 9-bit radix-tree indexes of this page number, most
    /// significant first.
    pub fn indexes(&self) -> (r: [usize; 3])
        requires
            self.wf(),
        ensures
            r[0] == self.0 / 262144,
            r[1] == (self.0 / 512) % 512,
            r[2] == self.0 % 512,
            r[0] < 512,
            r[1] < 512,
            r[2] < 512,
    {
        let i0 = (self.0 / 262144) as usize;
        let i1 = ((self.0 / 512) % 512) as usize;
        let i2 = (self.0 % 512) as usize;
        [i0, i1, i2]
    }
}

/// A value that can advance to its successor, one step at a time.
pub trait StepByOne {
    /// The numeric value being stepped.
    spec fn step_val(&self) -> u64;

    /// Advances the value by one.
    fn step(&mut self)
        requires
            old(self).step_val() < u64::MAX,
        ensures
            final(self).step_val() == old(self).step_val() + 1,
    ;
}

impl StepByOne for VirtPageNum {
    open spec fn step_val(&self) -> u64 {
        self.0
    }

    fn step(&mut self) {
        self.0 = self.0 + 1;
    }
}

/// A half-open range of virtual page numbers.
#[derive(Clone, Copy, Debug)]
pub struct SimpleRange {
    l: VirtPageNum,
    r: VirtPageNum,
}

impl SimpleRange {
    /// First page of the range.
    pub closed spec fn spec_start(self) -> u64 {
        self.l.0
    }

    /// One past the last page of the range.
    pub closed spec fn spec_end(self) -> u64 {
        self.r.0
    }

    /// Builds the range `[start, end)`.
    pub fn new(start: VirtPageNum, end: VirtPageNum) -> (r: SimpleRange)
        requires
            start.0 <= end.0,
        ensures
            r.spec_start() == start.0,
            r.spec_end() == end.0,
    {
        SimpleRange { l: start, r: end }
    }

    /// First page of the range.
    pub fn get_start(&self) -> (r: VirtPageNum)
        ensures
            r.0 == self.spec_start(),
    {
        self.l
    }

    /// One past the last page of the range.
    pub fn get_end(&self) -> (r: VirtPageNum)
        ensures
            r.0 == self.spec_end(),
    {
        self.r
    }
}

/// Walks a `SimpleRange` one page at a time.
pub struct SimpleRangeIterator {
    current: VirtPageNum,
    end: VirtPageNum,
}

impl SimpleRangeIterator {
    /// Next page the iterator will yield.
    pub closed spec fn spec_current(self) -> u64 {
        self.current.0
    }

    /// One past the last page the iterator yields.
    pub closed spec fn spec_end(self) -> u64 {
        self.end.0
    }

    /// Starts an iterator over `[l, r)`.
    pub fn new(l: VirtPageNum, r: VirtPageNum) -> (it: SimpleRangeIterator)
        requires
            l.0 <= r.0,
        ensures
            it.spec_current() == l.0,
            it.spec_end() == r.0,
    {
        SimpleRangeIterator { current: l, end: r }
    }

    /// Yields the next page of the range, or `None` when the range is
    /// exhausted.
    pub fn next(&mut self) -> (r: Option<VirtPageNum>)
        requires
            old(self).spec_current() <= old(self).spec_end(),
        ensures
            final(self).spec_end() == old(self).spec_end(),
            old(self).spec_current() == old(self).spec_end() ==> r is None
                && final(self).spec_current() == old(self).spec_current(),
            old(self).spec_current() < old(self).spec_end() ==> r == Some(VirtPageNum(
                old(self).spec_current(),
            )) && final(self).spec_current() == old(self).spec_current() + 1,
    {
        if self.current.0 == self.end.0 {
            None
        } else {
            let t = self.current;
            self.current.step();
            Some(t)
        }
    }
}

} // verus!
