//! Typed virtual/physical addresses and page numbers for SV39, with
//! half-open page-number ranges.

use vstd::prelude::*;

use crate::config::{PAGE_SIZE, PAGE_SIZE_BITS};

verus! {

#[derive(Clone, Copy, PartialEq, Eq, Structural, Debug)]
pub struct VirtAddr(pub u64);

#[derive(Clone, Copy, PartialEq, Eq, Structural, Debug)]
pub struct VirtPageNum(pub u64);

#[derive(Clone, Copy, PartialEq, Eq, Structural, Debug)]
pub struct PhysAddr(pub u64);

#[derive(Clone, Copy, PartialEq, Eq, Structural, Debug)]
pub struct PhysPageNum(pub u64);

/// Page number of the page containing address `v`.
pub open spec fn spec_floor(v: u64) -> u64 {
    (v / PAGE_SIZE) as u64
}

/// Page number of the first page boundary at or above `v`; 0 stays 0.
pub open spec fn spec_ceil(v: u64) -> u64 {
    if v % PAGE_SIZE == 0 {
        (v / PAGE_SIZE) as u64
    } else {
        (v / PAGE_SIZE + 1) as u64
    }
}

/// The three 9-bit SV39 walk indices of a virtual page number, root first.
pub open spec fn spec_indexes(vpn: u64) -> [u64; 3] {
    [((vpn >> 18) & 511) as u64, ((vpn >> 9) & 511) as u64, (vpn & 511) as u64]
}

impl VirtAddr {
    pub fn page_offset(&self) -> (r: u64)
        ensures
            r == self.0 % PAGE_SIZE,
    {
        let v = self.0;
        proof {
            assert(v & 4095 == v % 4096) by (bit_vector);
        }
        v & (PAGE_SIZE - 1)
    }

    pub fn aligned(&self) -> (r: bool)
        ensures
            r <==> self.0 % PAGE_SIZE == 0,
    {
        self.page_offset() == 0
    }

    /// Page number of the page this address lies in.
    pub fn floor(&self) -> (r: VirtPageNum)
        ensures
            r.0 == spec_floor(self.0),
    {
        let v = self.0;
        proof {
            assert(v >> 12 == v / 4096) by (bit_vector);
        }
        VirtPageNum(v >> PAGE_SIZE_BITS)
    }

    /// Page number of the first page boundary at or above this address.
    /// The zero address rounds to page zero.
    pub fn ceil(&self) -> (r: VirtPageNum)
        ensures
            r.0 == spec_ceil(self.0),
    {
        let off = self.page_offset();
        let f = self.floor();
        if off == 0 {
            f
        } else {
            proof {
                let v = self.0;
                assert(v / 4096 < 0xffff_ffff_ffff_ffffu64) by (bit_vector);
            }
            VirtPageNum(f.0 + 1)
        }
    }

    /// Page number of this (page-aligned) address.
    pub fn page_num(&self) -> (r: VirtPageNum)
        requires
            self.0 % PAGE_SIZE == 0,
        ensures
            r.0 == spec_floor(self.0),
    {
        self.floor()
    }
}

impl VirtPageNum {
    /// The three SV39 walk indices `[i0, i1, i2]`, root index first:
    /// `i2 = vpn & 0x1ff`, `i1 = (vpn >> 9) & 0x1ff`, `i0 = (vpn >> 18) & 0x1ff`.
    pub fn indexes(&self) -> (r: [u64; 3])
        ensures
            r == spec_indexes(self.0),
    {
        let i0 = (self.0 >> 18) & 511;
        let i1 = (self.0 >> 9) & 511;
        let i2 = self.0 & 511;
        let r = [i0, i1, i2];
        proof {
            assert(r =~= spec_indexes(self.0));
        }
        r
    }

    /// First address of this page.
    pub fn addr(&self) -> (r: VirtAddr)
        requires
            self.0 * PAGE_SIZE <= u64::MAX,
        ensures
            r.0 == self.0 * PAGE_SIZE,
    {
        VirtAddr(self.0 * PAGE_SIZE)
    }
}

impl PhysAddr {
    pub fn page_offset(&self) -> (r: u64)
        ensures
            r == self.0 % PAGE_SIZE,
    {
        let v = self.0;
        proof {
            assert(v & 4095 == v % 4096) by (bit_vector);
        }
        v & (PAGE_SIZE - 1)
    }

    pub fn aligned(&self) -> (r: bool)
        ensures
            r <==> self.0 % PAGE_SIZE == 0,
    {
        self.page_offset() == 0
    }

    /// Page number of the page this address lies in.
    pub fn floor(&self) -> (r: PhysPageNum)
        ensures
            r.0 == spec_floor(self.0),
    {
        let v = self.0;
        proof {
            assert(v >> 12 == v / 4096) by (bit_vector);
        }
        PhysPageNum(v >> PAGE_SIZE_BITS)
    }

    /// Page number of the first page boundary at or above this address.
    /// The zero address rounds to page zero.
    pub fn ceil(&self) -> (r: PhysPageNum)
        ensures
            r.0 == spec_ceil(self.0),
    {
        let off = self.page_offset();
        let f = self.floor();
        if off == 0 {
            f
        } else {
            proof {
                let v = self.0;
                assert(v / 4096 < 0xffff_ffff_ffff_ffffu64) by (bit_vector);
            }
            PhysPageNum(f.0 + 1)
        }
    }

    /// Page number of this (page-aligned) address.
    pub fn page_num(&self) -> (r: PhysPageNum)
        requires
            self.0 % PAGE_SIZE == 0,
        ensures
            r.0 == spec_floor(self.0),
    {
        self.floor()
    }
}

impl PhysPageNum {
    /// First address of this page.
    pub fn addr(&self) -> (r: PhysAddr)
        requires
            self.0 * PAGE_SIZE <= u64::MAX,
        ensures
            r.0 == self.0 * PAGE_SIZE,
    {
        PhysAddr(self.0 * PAGE_SIZE)
    }
}

/// Stepping a value to its successor, as the range iterator does.
pub trait StepByOne: Sized {
    /// Whether the successor exists.
    spec fn can_step(&self) -> bool;

    /// The successor value, as contracts see it.
    spec fn step_spec(&self) -> Self;

    fn step(&mut self)
        requires
            old(self).can_step(),
        ensures
            *final(self) == old(self).step_spec(),
    ;
}

impl StepByOne for VirtPageNum {
    open spec fn can_step(&self) -> bool {
        self.0 < u64::MAX
    }

    open spec fn step_spec(&self) -> VirtPageNum {
        VirtPageNum((self.0 + 1) as u64)
    }

    fn step(&mut self) {
        self.0 = self.0 + 1;
    }
}

/// Half-open range `[l, r)` of virtual page numbers.
#[derive(Clone, Copy, PartialEq, Eq, Structural, Debug)]
pub struct SimpleRange {
    l: VirtPageNum,
    r: VirtPageNum,
}

pub type VPNRange = SimpleRange;

impl SimpleRange {
    pub closed spec fn start(self) -> int {
        self.l.0 as int
    }

    pub closed spec fn end(self) -> int {
        self.r.0 as int
    }

    /// Whether the range holds `vpn`.
    pub open spec fn holds(self, vpn: int) -> bool {
        self.start() <= vpn < self.end()
    }

    pub open spec fn wf(self) -> bool {
        self.start() <= self.end()
    }

    /// Whether the two half-open intervals share a page number: both are
    /// non-empty and each starts below the other's end.
    pub open spec fn spec_overlaps(self, vr: SimpleRange) -> bool {
        self.start() < self.end() && vr.start() < vr.end() && self.start() < vr.end()
            && vr.start() < self.end()
    }

    pub fn new(start: VirtPageNum, end: VirtPageNum) -> (r: SimpleRange)
        requires
            start.0 <= end.0,
        ensures
            r.start() == start.0,
            r.end() == end.0,
            r.wf(),
    {
        SimpleRange { l: start, r: end }
    }

    pub fn get_start(&self) -> (r: VirtPageNum)
        ensures
            r.0 == self.start(),
    {
        self.l
    }

    pub fn get_end(&self) -> (r: VirtPageNum)
        ensures
            r.0 == self.end(),
    {
        self.r
    }

    /// Overlap test: whether the two half-open intervals share a page
    /// number. An empty range shares nothing, wherever it starts.
    pub fn overlaps(&self, vr: SimpleRange) -> (r: bool)
        ensures
            r == self.spec_overlaps(vr),
    {
        (self.l.0 < self.r.0) && (vr.l.0 < vr.r.0) && (self.l.0 < vr.r.0) && (vr.l.0 < self.r.0)
    }

    pub fn iter(&self) -> (r: SimpleRangeIterator)
        ensures
            r.cur() == self.start(),
            r.stop() == self.end(),
    {
        SimpleRangeIterator::new(self.l, self.r)
    }
}

/// Two ranges overlap under `overlaps` exactly when they share a page
/// number.
pub proof fn law_overlap_shares_vpn(a: SimpleRange, b: SimpleRange)
    ensures
        a.spec_overlaps(b) <==> exists|vpn: int| a.holds(vpn) && b.holds(vpn),
{
    if a.spec_overlaps(b) {
        let w = if a.start() >= b.start() {
            a.start()
        } else {
            b.start()
        };
        assert(a.holds(w) && b.holds(w));
    }
}

/// Walks a half-open page-number range from its start to its end.
#[derive(Clone, Copy, PartialEq, Eq, Structural, Debug)]
pub struct SimpleRangeIterator {
    current: VirtPageNum,
    end: VirtPageNum,
}

impl SimpleRangeIterator {
    pub closed spec fn cur(self) -> int {
        self.current.0 as int
    }

    pub closed spec fn stop(self) -> int {
        self.end.0 as int
    }

    pub fn new(l: VirtPageNum, r: VirtPageNum) -> (it: SimpleRangeIterator)
        ensures
            it.cur() == l.0,
            it.stop() == r.0,
    {
        SimpleRangeIterator { current: l, end: r }
    }

    /// The next page number, or `None` once the end is reached.
    pub fn next(&mut self) -> (r: Option<VirtPageNum>)
        requires
            old(self).cur() <= old(self).stop(),
        ensures
            old(self).cur() == old(self).stop() ==> r is None && *final(self) == *old(self),
            old(self).cur() < old(self).stop() ==> r == Some(VirtPageNum(old(self).cur() as u64))
                && final(self).cur() == old(self).cur() + 1 && final(self).stop() == old(
                self,
            ).stop(),
    {
        if self.current.0 == self.end.0 {
            None
        } else {
            let t = self.current;
            self.current.step();
            Some(t)
        }
    }
}

/// For any page-aligned address inside the 39-bit space, the three walk
/// indices of its page number recompose to the page number itself via
/// `(i0 << 18) | (i1 << 9) | i2`.
pub proof fn law_indexes_recompose(va: VirtAddr)
    requires
        va.0 % PAGE_SIZE == 0,
        va.0 < 0x80_0000_0000u64,
    ensures
        ({
            let p = spec_floor(va.0);
            let idx = spec_indexes(p);
            (idx[0] << 18) | (idx[1] << 9) | idx[2] == p
        }),
{
    let v = va.0;
    assert(v >> 12 == v / 4096) by (bit_vector);
    let p = v >> 12;
    assert(v < 0x80_0000_0000u64 ==> ((((p >> 18) & 511) << 18) | (((p >> 9) & 511) << 9) | (p
        & 511)) == p) by (bit_vector)
        requires
            p == v >> 12,
    ;
}

/// Rounding brackets every address tightly: the ceiling page is the floor
/// page or the one after, they agree exactly on aligned addresses, and
/// the zero address rounds up to page zero.
pub proof fn law_ceil_floor(va: VirtAddr)
    ensures
        spec_ceil(va.0) - spec_floor(va.0) == 0 || spec_ceil(va.0) - spec_floor(va.0) == 1,
        spec_ceil(va.0) == spec_floor(va.0) <==> va.0 % PAGE_SIZE == 0,
        spec_ceil(0) == 0,
{
}

} // verus!
