//! Address spaces: contiguous map areas composed over one page table.
//!
//! Page numbers handled here are canonical SV39 numbers, below `2^27`: the
//! hardware reads only virtual-address bits 38..12, so the high kernel
//! pages (trampoline, trap context) are referred to by their canonical
//! image, which walks through the very same slots
//! (`crate::page_table::lemma_slot_mask`).

use vstd::prelude::*;

use crate::address::{spec_ceil, spec_floor, PhysAddr, PhysPageNum, VPNRange, VirtAddr, VirtPageNum};
use crate::config::{PAGE_SIZE, USER_STACK_SIZE};
use crate::elf::ElfImage;
use crate::frame_allocator::FrameTracker;
use crate::page_table::{
    lemma_idx_bounds, lemma_inv_preserved, lemma_same_slot_small, lemma_walk_unchanged, same_slot,
    view_at, walk, PTEFlags, PageTable, PageTableEntry, PTE_R, PTE_V, PTE_X,
};
use crate::phys_mem::{page_same, PhysMem};

verus! {

/// Map-permission bits, chosen equal to the PTE positions of R/W/X/U.
pub const MAP_PERM_R: u8 = 2;

pub const MAP_PERM_W: u8 = 4;

pub const MAP_PERM_X: u8 = 8;

pub const MAP_PERM_U: u8 = 16;

/// Permission bits of a map area: a subset of R/W/X/U, V always clear.
#[derive(Clone, Copy, PartialEq, Eq, Structural, Debug)]
pub struct MapPermission {
    pub bits: u8,
}

impl MapPermission {
    /// Whether `bits` uses only the R/W/X/U positions.
    pub open spec fn spec_valid_bits(bits: u8) -> bool {
        bits & 0xE1 == 0
    }

    pub fn empty() -> (r: MapPermission)
        ensures
            r.bits == 0,
    {
        MapPermission { bits: 0 }
    }

    pub fn from_bits(bits: u8) -> (r: MapPermission)
        requires
            MapPermission::spec_valid_bits(bits),
        ensures
            r.bits == bits,
    {
        MapPermission { bits }
    }

    pub fn union(self, other: MapPermission) -> (r: MapPermission)
        ensures
            r.bits == self.bits | other.bits,
    {
        MapPermission { bits: self.bits | other.bits }
    }
}

#[derive(Clone, Copy, PartialEq, Eq, Structural, Debug)]
pub enum MapType {
    /// `ppn == vpn`: used for the kernel's own sections and physical RAM.
    Identical,
    /// Each page is backed by a freshly allocated frame the area owns.
    Framed,
}


/// An area's mappings survive any step that keeps its views, its frames'
/// pages and their allocation state.
pub proof fn lemma_area_entries_preserved(
    a: MapArea,
    mpre: PhysMem,
    mpost: PhysMem,
    rt: int,
    lo: int,
)
    requires
        a.wf(),
        forall|i: int| lo <= i < a.len_spec() ==> #[trigger] a.entry_ok(mpre, rt, i),
        forall|i: int|
            lo <= i < a.len_spec() ==> #[trigger] view_at(mpost, rt, (a.start_spec() + i) as u64)
                == view_at(mpre, rt, (a.start_spec() + i) as u64),
        forall|i: int|
            lo <= i < a.len_spec() && a.map_type_spec() == MapType::Framed ==> page_same(
                mpre,
                mpost,
                (#[trigger] a.frames_view()[i]).unwrap().ppn.0 as int,
            ) && mpost.is_free(a.frames_view()[i].unwrap().ppn.0 as int) == mpre.is_free(
                a.frames_view()[i].unwrap().ppn.0 as int,
            ),
    ensures
        forall|i: int| lo <= i < a.len_spec() ==> #[trigger] a.entry_ok(mpost, rt, i),
{
    assert forall|i: int| lo <= i < a.len_spec() implies #[trigger] a.entry_ok(mpost, rt, i) by {
        assert(a.entry_ok(mpre, rt, i));
    }
}

/// One contiguous virtual region of an address space.
pub struct MapArea {
    vpn_range: VPNRange,
    data_frames: Vec<Option<FrameTracker>>,
    map_type: MapType,
    map_perm: MapPermission,
}

impl MapArea {
    pub closed spec fn start_spec(self) -> int {
        self.vpn_range.start()
    }

    pub closed spec fn end_spec(self) -> int {
        self.vpn_range.end()
    }

    pub closed spec fn map_type_spec(self) -> MapType {
        self.map_type
    }

    pub closed spec fn perm_spec(self) -> u8 {
        self.map_perm.bits
    }

    pub closed spec fn frames_view(self) -> Seq<Option<FrameTracker>> {
        self.data_frames@
    }

    pub closed spec fn range_spec(self) -> VPNRange {
        self.vpn_range
    }

    pub open spec fn len_spec(self) -> int {
        self.end_spec() - self.start_spec()
    }

    /// Whether the area's range holds page number `v`.
    pub open spec fn holds(self, v: int) -> bool {
        self.start_spec() <= v < self.end_spec()
    }

    /// Shape of the area itself, independent of the page table.
    pub open spec fn wf(self) -> bool {
        &&& 0 <= self.start_spec() <= self.end_spec() <= 0x800_0000
        &&& self.frames_view().len() == self.len_spec()
        &&& MapPermission::spec_valid_bits(self.perm_spec())
    }

    /// Whether some slot of the area holds a frame with page number `q`.
    pub open spec fn owns_frame(self, q: int) -> bool {
        exists|i: int|
            0 <= i < self.frames_view().len() && (#[trigger] self.frames_view()[i]) is Some
                && self.frames_view()[i].unwrap().ppn.0 == q
    }

    /// No page of the area is mapped yet.
    pub open spec fn unfilled(self) -> bool {
        forall|i: int| 0 <= i < self.frames_view().len() ==> #[trigger] self.frames_view()[i]
            is None
    }

    pub fn new(
        start_va: VirtAddr,
        end_va: VirtAddr,
        map_type: MapType,
        map_perm: MapPermission,
    ) -> (r: MapArea)
        requires
            spec_floor(start_va.0) <= spec_ceil(end_va.0),
            spec_ceil(end_va.0) <= 0x800_0000,
            MapPermission::spec_valid_bits(map_perm.bits),
        ensures
            r.wf(),
            r.unfilled(),
            r.start_spec() == spec_floor(start_va.0),
            r.end_spec() == spec_ceil(end_va.0),
            r.map_type_spec() == map_type,
            r.perm_spec() == map_perm.bits,
    {
        let start_vpn = start_va.floor();
        let end_vpn = end_va.ceil();
        MapArea::new_by_vpn(VPNRange::new(start_vpn, end_vpn), map_type, map_perm)
    }

    /// Builds an area from an explicit canonical page-number range.
    pub fn new_by_vpn(range: VPNRange, map_type: MapType, map_perm: MapPermission) -> (r: MapArea)
        requires
            range.wf(),
            range.end() <= 0x800_0000,
            range.start() >= 0,
            MapPermission::spec_valid_bits(map_perm.bits),
        ensures
            r.wf(),
            r.unfilled(),
            r.start_spec() == range.start(),
            r.end_spec() == range.end(),
            r.map_type_spec() == map_type,
            r.perm_spec() == map_perm.bits,
    {
        let l = range.get_start();
        let r_ = range.get_end();
        let n = (r_.0 - l.0) as usize;
        let mut data_frames: Vec<Option<FrameTracker>> = Vec::new();
        let mut i: usize = 0;
        while i < n
            invariant
                i <= n,
                data_frames@.len() == i,
                forall|j: int| 0 <= j < i ==> #[trigger] data_frames@[j] is None,
            decreases n - i,
        {
            data_frames.push(None);
            i = i + 1;
        }
        MapArea { vpn_range: range, data_frames, map_type, map_perm }
    }

    /// Whether this area's range overlaps `vr`, exactly as the ranges
    /// compare.
    pub fn overlaps(&self, vr: VPNRange) -> (r: bool)
        ensures
            r == self.range_spec().spec_overlaps(vr),
    {
        self.vpn_range.overlaps(vr)
    }

    /// Whether this area's range equals `vr` exactly.
    pub fn match_r(&self, vr: VPNRange) -> (r: bool)
        ensures
            r == (self.start_spec() == vr.start() && self.end_spec() == vr.end()),
    {
        (self.vpn_range.get_start().0 == vr.get_start().0) && (self.vpn_range.get_end().0
            == vr.get_end().0)
    }


    /// The mapping of the page table at index `i` of this area is exactly
    /// what the area prescribes.
    pub open spec fn entry_ok(self, mem: PhysMem, root: int, i: int) -> bool {
        let v = (self.start_spec() + i) as u64;
        let r = view_at(mem, root, v);
        &&& r is Some
        &&& r.unwrap().spec_flags() == self.perm_spec() | PTE_V
        &&& match self.map_type_spec() {
            MapType::Framed => {
                &&& self.frames_view()[i] is Some
                &&& r.unwrap().spec_ppn() == self.frames_view()[i].unwrap().ppn.0
                &&& mem.is_data(self.frames_view()[i].unwrap().ppn.0 as int)
                &&& !mem.is_free(self.frames_view()[i].unwrap().ppn.0 as int)
            },
            MapType::Identical => r.unwrap().spec_ppn() == self.start_spec() + i
                && self.frames_view()[i] is None,
        }
    }

    /// Maps one page of the area: for `Identical` onto its own number, for
    /// `Framed` onto a freshly allocated zeroed frame recorded in the area.
    #[verifier::rlimit(100)]
    pub fn map_one(&mut self, page_table: &mut PageTable, mem: &mut PhysMem, vpn: VirtPageNum)
        requires
            old(page_table).inv(*old(mem)),
            old(self).wf(),
            old(self).holds(vpn.0 as int),
            view_at(*old(mem), old(page_table).root(), vpn.0) is None,
            old(self).frames_view()[vpn.0 - old(self).start_spec()] is None,
            old(mem).free_count() >= 3,
        ensures
            final(page_table).inv(*final(mem)),
            final(page_table).root() == old(page_table).root(),
            final(self).wf(),
            final(self).range_spec() == old(self).range_spec(),
            final(self).start_spec() == old(self).start_spec(),
            final(self).end_spec() == old(self).end_spec(),
            final(self).map_type_spec() == old(self).map_type_spec(),
            final(self).perm_spec() == old(self).perm_spec(),
            final(self).entry_ok(*final(mem), old(page_table).root(), vpn.0
                - old(self).start_spec()),
            old(self).map_type_spec() == MapType::Framed ==> {
                let i = vpn.0 - old(self).start_spec();
                let t = final(self).frames_view()[i].unwrap();
                &&& final(self).frames_view() == old(self).frames_view().update(i, Some(t))
                &&& old(mem).is_free(t.ppn.0 as int)
                &&& final(mem).data_at(t.ppn.0 as int) == crate::phys_mem::zero_page()
            },
            old(self).map_type_spec() == MapType::Identical ==> final(self).frames_view() == old(
                self,
            ).frames_view(),
            forall|v2: u64|
                v2 < 0x800_0000 && v2 != vpn.0 ==> #[trigger] view_at(
                    *final(mem),
                    old(page_table).root(),
                    v2,
                ) == view_at(*old(mem), old(page_table).root(), v2),
            forall|q: int|
                !old(mem).is_free(q) && !old(page_table).nodes().contains(q)
                    ==> #[trigger] page_same(*old(mem), *final(mem), q),
            forall|q: int| !old(mem).is_free(q) ==> !final(mem).is_free(q),
            forall|p: int| #[trigger]
                old(page_table).nodes().contains(p) ==> final(page_table).nodes().contains(p),
            forall|p: int| #[trigger]
                final(page_table).nodes().contains(p) ==> old(page_table).nodes().contains(p)
                    || old(mem).is_free(p),
            final(mem).free_count() >= old(mem).free_count() - 3,
            final(mem).base_spec() == old(mem).base_spec(),
            final(mem).win_len() == old(mem).win_len(),
    {
        let ghost m0 = *mem;
        let ghost pt0 = *page_table;
        let ghost rt = old(page_table).root();
        proof {
            lemma_idx_bounds(vpn.0);
        }
        match self.map_type {
            MapType::Identical => {
                let fl = PTEFlags::from_bits(self.map_perm.bits);
                page_table.map(mem, vpn, crate::address::PhysPageNum(vpn.0), fl);
                proof {
                    assert forall|v2: u64| v2 < 0x800_0000 && v2 != vpn.0 implies #[trigger]
                        view_at(*mem, rt, v2) == view_at(m0, rt, v2) by {
                        if same_slot(v2, vpn.0) {
                            lemma_same_slot_small(v2, vpn.0);
                        }
                    }
                }
            },
            MapType::Framed => {
                let t = match mem.frame_alloc() {
                    Some(t) => t,
                    None => {
                        proof {
                            assert(false);
                        }
                        vstd::pervasive::unreached()
                    },
                };
                let ppn = t.ppn;
                let ghost c = ppn.0 as int;
                let ghost m1 = *mem;
                proof {
                    assert(!pt0.nodes().contains(c));
                    assert forall|p: int, k: int|
                        pt0.nodes().contains(p) implies #[trigger] m1.entry_at(p, k) == m0.entry_at(
                        p,
                        k,
                    ) by {
                        assert(page_same(m0, m1, p));
                    }
                    lemma_walk_unchanged(pt0, m0, m1);
                    lemma_inv_preserved(pt0, m0, m1);
                }
                let idx = (vpn.0 - self.vpn_range.get_start().0) as usize;
                let slot = &mut self.data_frames[idx];
                *slot = Some(t);
                let fl = PTEFlags::from_bits(self.map_perm.bits);
                page_table.map(mem, vpn, ppn, fl);
                proof {
                    assert(!m1.is_free(c));
                    assert(page_same(m1, *mem, c));
                    assert(mem.data_at(c) == crate::phys_mem::zero_page());
                    assert(self.frames_view() =~= old(self).frames_view().update(
                        idx as int,
                        Some(t),
                    ));
                    assert forall|v2: u64| v2 < 0x800_0000 && v2 != vpn.0 implies #[trigger]
                        view_at(*mem, rt, v2) == view_at(m0, rt, v2) by {
                        if same_slot(v2, vpn.0) {
                            lemma_same_slot_small(v2, vpn.0);
                        }
                        assert(view_at(m1, rt, v2) == view_at(m0, rt, v2));
                    }
                    assert forall|q: int|
                        !m0.is_free(q) && !pt0.nodes().contains(q) implies #[trigger] page_same(
                        m0,
                        *mem,
                        q,
                    ) by {
                        assert(page_same(m0, m1, q));
                        assert(!m1.is_free(q));
                        assert(page_same(m1, *mem, q));
                    }
                }
            },
        }
    }


    /// Unmaps one page of the area; a `Framed` page's frame goes back to
    /// the allocator.
    #[verifier::rlimit(100)]
    pub fn unmap_one(&mut self, page_table: &mut PageTable, mem: &mut PhysMem, vpn: VirtPageNum)
        requires
            old(page_table).inv(*old(mem)),
            old(self).wf(),
            old(self).holds(vpn.0 as int),
            vpn.0 < 0x800_0000,
            old(self).entry_ok(*old(mem), old(page_table).root(), vpn.0 - old(self).start_spec()),
        ensures
            final(page_table).inv(*final(mem)),
            final(page_table).root() == old(page_table).root(),
            final(page_table).nodes() == old(page_table).nodes(),
            final(self).wf(),
            final(self).range_spec() == old(self).range_spec(),
            final(self).start_spec() == old(self).start_spec(),
            final(self).end_spec() == old(self).end_spec(),
            final(self).map_type_spec() == old(self).map_type_spec(),
            final(self).perm_spec() == old(self).perm_spec(),
            view_at(*final(mem), old(page_table).root(), vpn.0) is None,
            forall|v2: u64|
                v2 < 0x800_0000 && v2 != vpn.0 ==> #[trigger] view_at(
                    *final(mem),
                    old(page_table).root(),
                    v2,
                ) == view_at(*old(mem), old(page_table).root(), v2),
            old(self).map_type_spec() == MapType::Framed ==> {
                let i = vpn.0 - old(self).start_spec();
                let t = old(self).frames_view()[i].unwrap();
                &&& final(self).frames_view() == old(self).frames_view().update(i, None)
                &&& final(mem).is_free(t.ppn.0 as int)
                &&& forall|q: int| q != t.ppn.0 ==> final(mem).is_free(q) == old(mem).is_free(q)
                &&& final(mem).free_count() == old(mem).free_count() + 1
            },
            old(self).map_type_spec() == MapType::Identical ==> {
                &&& final(self).frames_view() == old(self).frames_view()
                &&& final(mem).alloc_view() == old(mem).alloc_view()
            },
            forall|q: int|
                !old(page_table).nodes().contains(q) ==> #[trigger] page_same(
                    *old(mem),
                    *final(mem),
                    q,
                ),
            final(mem).base_spec() == old(mem).base_spec(),
            final(mem).win_len() == old(mem).win_len(),
    {
        let ghost m0 = *mem;
        let ghost pt0 = *page_table;
        let ghost rt = old(page_table).root();
        let ghost i = vpn.0 - old(self).start_spec();
        match self.map_type {
            MapType::Framed => {
                let idx = (vpn.0 - self.vpn_range.get_start().0) as usize;
                let slot = &mut self.data_frames[idx];
                let mut taken: Option<FrameTracker> = None;
                core::mem::swap(&mut taken, slot);
                let t = match taken {
                    Some(t) => t,
                    None => {
                        proof {
                            assert(false);
                        }
                        vstd::pervasive::unreached()
                    },
                };
                proof {
                    let c = t.ppn.0 as int;
                    assert(idx as int == i);
                    assert(old(self).entry_ok(m0, rt, i));
                    assert(t == old(self).frames_view()[i].unwrap());
                    assert(m0.is_data(c));
                    crate::phys_mem::lemma_page_roles(m0, c);
                    // a data frame is never a table node
                    if pt0.nodes().contains(c) {
                        assert(m0.is_table(c));
                    }
                    assert(!pt0.nodes().contains(c));
                }
                mem.frame_dealloc(t.ppn);
                let ghost m1 = *mem;
                proof {
                    assert forall|p: int, k: int|
                        pt0.nodes().contains(p) implies #[trigger] m1.entry_at(p, k) == m0.entry_at(
                        p,
                        k,
                    ) by {
                        assert(page_same(m0, m1, p));
                    }
                    lemma_walk_unchanged(pt0, m0, m1);
                    lemma_inv_preserved(pt0, m0, m1);
                    assert(self.frames_view() =~= old(self).frames_view().update(i, None));
                }
                page_table.unmap(mem, vpn);
                proof {
                    assert forall|v2: u64| v2 < 0x800_0000 && v2 != vpn.0 implies #[trigger]
                        view_at(*mem, rt, v2) == view_at(m0, rt, v2) by {
                        if same_slot(v2, vpn.0) {
                            lemma_same_slot_small(v2, vpn.0);
                        }
                        assert(view_at(m1, rt, v2) == view_at(m0, rt, v2));
                    }
                    assert forall|q: int|
                        !pt0.nodes().contains(q) implies #[trigger] page_same(m0, *mem, q) by {
                        assert(page_same(m0, m1, q));
                        assert(page_same(m1, *mem, q));
                    }
                }
            },
            MapType::Identical => {
                page_table.unmap(mem, vpn);
                proof {
                    assert forall|v2: u64| v2 < 0x800_0000 && v2 != vpn.0 implies #[trigger]
                        view_at(*mem, rt, v2) == view_at(m0, rt, v2) by {
                        if same_slot(v2, vpn.0) {
                            lemma_same_slot_small(v2, vpn.0);
                        }
                    }
                }
            },
        }
    }

    /// Maps the whole range of the area.
    #[verifier::rlimit(100)]
    #[verifier::loop_isolation(false)]
    pub fn map(&mut self, page_table: &mut PageTable, mem: &mut PhysMem)
        requires
            old(page_table).inv(*old(mem)),
            old(self).wf(),
            old(self).unfilled(),
            forall|v: u64|
                old(self).holds(v as int) ==> #[trigger] view_at(
                    *old(mem),
                    old(page_table).root(),
                    v,
                ) is None,
            old(mem).free_count() >= 3 * old(self).len_spec(),
        ensures
            final(page_table).inv(*final(mem)),
            final(page_table).root() == old(page_table).root(),
            final(self).wf(),
            final(self).range_spec() == old(self).range_spec(),
            final(self).start_spec() == old(self).start_spec(),
            final(self).end_spec() == old(self).end_spec(),
            final(self).map_type_spec() == old(self).map_type_spec(),
            final(self).perm_spec() == old(self).perm_spec(),
            forall|i: int|
                0 <= i < final(self).len_spec() ==> #[trigger] final(self).entry_ok(
                    *final(mem),
                    old(page_table).root(),
                    i,
                ),
            final(self).map_type_spec() == MapType::Identical ==> final(self).frames_view()
                == old(self).frames_view(),
            final(self).map_type_spec() == MapType::Framed ==> {
                &&& forall|i: int|
                    0 <= i < final(self).len_spec() ==> (#[trigger] final(self).frames_view()[i])
                        is Some
                &&& forall|i: int|
                    0 <= i < final(self).len_spec() ==> final(mem).data_at(
                        (#[trigger] final(self).frames_view()[i]).unwrap().ppn.0 as int,
                    ) == crate::phys_mem::zero_page()
                &&& forall|i: int, k: int|
                    #![trigger final(self).frames_view()[i], final(self).frames_view()[k]]
                    0 <= i < k < final(self).len_spec() ==> final(self).frames_view()[i].unwrap().ppn.0
                        != final(self).frames_view()[k].unwrap().ppn.0
                &&& forall|i: int|
                    0 <= i < final(self).len_spec() ==> old(mem).is_free(
                        (#[trigger] final(self).frames_view()[i]).unwrap().ppn.0 as int,
                    )
            },
            forall|v2: u64|
                v2 < 0x800_0000 && !old(self).holds(v2 as int) ==> #[trigger] view_at(
                    *final(mem),
                    old(page_table).root(),
                    v2,
                ) == view_at(*old(mem), old(page_table).root(), v2),
            forall|q: int|
                !old(mem).is_free(q) && !old(page_table).nodes().contains(q)
                    ==> #[trigger] page_same(*old(mem), *final(mem), q),
            forall|q: int| !old(mem).is_free(q) ==> !final(mem).is_free(q),
            forall|p: int| #[trigger]
                old(page_table).nodes().contains(p) ==> final(page_table).nodes().contains(p),
            forall|p: int| #[trigger]
                final(page_table).nodes().contains(p) ==> old(page_table).nodes().contains(p)
                    || old(mem).is_free(p),
            final(mem).free_count() >= old(mem).free_count() - 3 * old(self).len_spec(),
            final(mem).base_spec() == old(mem).base_spec(),
            final(mem).win_len() == old(mem).win_len(),
    {
        let ghost m0 = *mem;
        let ghost pt0 = *page_table;
        let ghost s0 = *self;
        let ghost rt = old(page_table).root();
        let start = self.vpn_range.get_start().0;
        let end = self.vpn_range.get_end().0;
        let mut v: u64 = start;
        while v < end
            invariant
                start == s0.start_spec(),
                end == s0.end_spec(),
                start <= v <= end,
                end <= 0x800_0000,
                page_table.inv(*mem),
                page_table.root() == rt,
                self.wf(),
                self.range_spec() == s0.range_spec(),
                self.start_spec() == s0.start_spec(),
                self.end_spec() == s0.end_spec(),
                self.map_type_spec() == s0.map_type_spec(),
                self.perm_spec() == s0.perm_spec(),
                forall|i: int|
                    0 <= i < v - start ==> #[trigger] self.entry_ok(*mem, rt, i),
                forall|i: int|
                    v - start <= i < self.len_spec() ==> (#[trigger] self.frames_view()[i]) is None,
                self.map_type_spec() == MapType::Identical ==> self.frames_view()
                    == s0.frames_view(),
                self.map_type_spec() == MapType::Framed ==> {
                    &&& forall|i: int|
                        0 <= i < v - start ==> (#[trigger] self.frames_view()[i]) is Some
                    &&& forall|i: int, k: int|
                        #![trigger self.frames_view()[i], self.frames_view()[k]]
                        0 <= i < k < v - start ==> self.frames_view()[i].unwrap().ppn.0
                            != self.frames_view()[k].unwrap().ppn.0
                    &&& forall|i: int|
                        0 <= i < v - start ==> mem.data_at(
                            (#[trigger] self.frames_view()[i]).unwrap().ppn.0 as int,
                        ) == crate::phys_mem::zero_page()
                    &&& forall|i: int|
                        0 <= i < v - start ==> old(mem).is_free(
                            (#[trigger] self.frames_view()[i]).unwrap().ppn.0 as int,
                        )
                },
                forall|v2: u64|
                    v2 < 0x800_0000 && !(start <= v2 < v) ==> #[trigger] view_at(*mem, rt, v2)
                        == view_at(m0, rt, v2),
                forall|q: int|
                    !m0.is_free(q) && !pt0.nodes().contains(q) ==> #[trigger] page_same(
                        m0,
                        *mem,
                        q,
                    ),
                forall|q: int| !m0.is_free(q) ==> !mem.is_free(q),
                forall|p: int| #[trigger] pt0.nodes().contains(p) ==> page_table.nodes().contains(p),
                forall|p: int| #[trigger]
                    page_table.nodes().contains(p) ==> pt0.nodes().contains(p) || m0.is_free(p),
                mem.free_count() >= m0.free_count() - 3 * (v - start),
                mem.base_spec() == m0.base_spec(),
                mem.win_len() == m0.win_len(),
            decreases end - v,
        {
            let ghost mi = *mem;
            let ghost pti = *page_table;
            let ghost si = *self;
            proof {
                assert(view_at(*mem, rt, v) == view_at(m0, rt, v));
                assert(old(self).holds(v as int));
                assert(view_at(*old(mem), old(page_table).root(), v) is None);
                assert(view_at(m0, rt, v) is None);
                assert(m0.free_count() == old(mem).free_count());
                assert(mem.free_count() >= 3);
            }
            self.map_one(page_table, mem, VirtPageNum(v));
            proof {
                let iv = v - start;
                assert forall|i: int|
                    v + 1 - start <= i < self.len_spec() implies (#[trigger] self.frames_view()[i])
                    is None by {
                    assert(self.frames_view()[i] == si.frames_view()[i]);
                }
                assert(self.entry_ok(*mem, rt, iv));
                assert forall|i: int| 0 <= i < v + 1 - start implies #[trigger] self.entry_ok(
                    *mem,
                    rt,
                    i,
                ) by {
                    if i < iv {
                        assert(si.entry_ok(mi, rt, i));
                        assert(view_at(*mem, rt, (start + i) as u64) == view_at(
                            mi,
                            rt,
                            (start + i) as u64,
                        ));
                        if si.map_type_spec() == MapType::Framed {
                            let pp = si.frames_view()[i].unwrap().ppn.0 as int;
                            assert(mi.is_data(pp));
                            crate::phys_mem::lemma_page_roles(mi, pp);
                            if pti.nodes().contains(pp) {
                                assert(mi.is_table(pp));
                            }
                            assert(!pti.nodes().contains(pp));
                            assert(page_same(mi, *mem, pp));
                            assert(self.frames_view()[i] == si.frames_view()[i]);
                        }
                    }
                }
                if self.map_type_spec() == MapType::Framed {
                    assert forall|i: int| 0 <= i < v + 1 - start implies mem.data_at(
                        (#[trigger] self.frames_view()[i]).unwrap().ppn.0 as int,
                    ) == crate::phys_mem::zero_page() by {
                        if i < iv {
                            let pp = si.frames_view()[i].unwrap().ppn.0 as int;
                            assert(si.entry_ok(mi, rt, i));
                            assert(mi.is_data(pp));
                            crate::phys_mem::lemma_page_roles(mi, pp);
                            if pti.nodes().contains(pp) {
                                assert(mi.is_table(pp));
                            }
                            assert(!pti.nodes().contains(pp));
                            assert(page_same(mi, *mem, pp));
                            assert(self.frames_view()[i] == si.frames_view()[i]);
                        }
                    }
                    assert forall|i: int, k: int|
                        #![trigger self.frames_view()[i], self.frames_view()[k]]
                        0 <= i < k < v + 1 - start implies self.frames_view()[i].unwrap().ppn.0
                        != self.frames_view()[k].unwrap().ppn.0 by {
                        if k == iv {
                            let pp = si.frames_view()[i].unwrap().ppn.0 as int;
                            assert(self.frames_view()[i] == si.frames_view()[i]);
                            assert(si.entry_ok(mi, rt, i));
                            assert(!mi.is_free(pp));
                            assert(mi.is_free(self.frames_view()[k].unwrap().ppn.0 as int));
                        } else {
                            assert(self.frames_view()[i] == si.frames_view()[i]);
                            assert(self.frames_view()[k] == si.frames_view()[k]);
                        }
                    }
                    assert forall|i: int| 0 <= i < v + 1 - start implies m0.is_free(
                        (#[trigger] self.frames_view()[i]).unwrap().ppn.0 as int,
                    ) by {
                        if i == iv {
                            let pp = self.frames_view()[iv].unwrap().ppn.0 as int;
                            assert(mi.is_free(pp));
                            if !m0.is_free(pp) {
                                assert(!mi.is_free(pp));
                            }
                        } else {
                            assert(self.frames_view()[i] == si.frames_view()[i]);
                        }
                    }
                }
                assert forall|q: int|
                    !m0.is_free(q) && !pt0.nodes().contains(q) implies #[trigger] page_same(
                    m0,
                    *mem,
                    q,
                ) by {
                    assert(page_same(m0, mi, q));
                    assert(!mi.is_free(q));
                    if pti.nodes().contains(q) {
                        assert(false);
                    }
                    assert(page_same(mi, *mem, q));
                }
            }
            v = v + 1;
        }
    }


    /// Unmaps the whole range of the area, returning `Framed` frames to
    /// the allocator.
    #[verifier::rlimit(100)]
    pub fn unmap(&mut self, page_table: &mut PageTable, mem: &mut PhysMem)
        requires
            old(page_table).inv(*old(mem)),
            old(self).wf(),
            forall|i: int|
                0 <= i < old(self).len_spec() ==> #[trigger] old(self).entry_ok(
                    *old(mem),
                    old(page_table).root(),
                    i,
                ),
            old(self).map_type_spec() == MapType::Framed ==> forall|i: int, k: int|
                #![trigger old(self).frames_view()[i], old(self).frames_view()[k]]
                0 <= i < k < old(self).len_spec() ==> old(self).frames_view()[i].unwrap().ppn.0
                    != old(self).frames_view()[k].unwrap().ppn.0,
        ensures
            final(page_table).inv(*final(mem)),
            final(page_table).root() == old(page_table).root(),
            final(page_table).nodes() == old(page_table).nodes(),
            final(self).wf(),
            final(self).range_spec() == old(self).range_spec(),
            final(self).start_spec() == old(self).start_spec(),
            final(self).end_spec() == old(self).end_spec(),
            final(self).map_type_spec() == old(self).map_type_spec(),
            final(self).perm_spec() == old(self).perm_spec(),
            forall|v: u64|
                old(self).holds(v as int) ==> #[trigger] view_at(
                    *final(mem),
                    old(page_table).root(),
                    v,
                ) is None,
            forall|v2: u64|
                v2 < 0x800_0000 && !old(self).holds(v2 as int) ==> #[trigger] view_at(
                    *final(mem),
                    old(page_table).root(),
                    v2,
                ) == view_at(*old(mem), old(page_table).root(), v2),
            forall|q: int|
                !old(page_table).nodes().contains(q) ==> #[trigger] page_same(
                    *old(mem),
                    *final(mem),
                    q,
                ),
            forall|q: int|
                !old(self).owns_frame(q) ==> #[trigger] final(mem).is_free(q) == old(
                    mem,
                ).is_free(q),
            old(self).map_type_spec() == MapType::Framed ==> forall|i: int|
                0 <= i < old(self).len_spec() && old(self).frames_view()[i] is Some
                    ==> final(mem).is_free(
                    (#[trigger] old(self).frames_view()[i]).unwrap().ppn.0 as int,
                ),
            forall|i: int|
                0 <= i < old(self).len_spec() ==> (#[trigger] final(self).frames_view()[i])
                    is None,
            final(mem).base_spec() == old(mem).base_spec(),
            final(mem).win_len() == old(mem).win_len(),
    {
        let ghost m0 = *mem;
        let ghost pt0 = *page_table;
        let ghost s0 = *self;
        let ghost rt = old(page_table).root();
        let start = self.vpn_range.get_start().0;
        let end = self.vpn_range.get_end().0;
        let mut v: u64 = start;
        while v < end
            invariant
                start <= v <= end,
                start == s0.start_spec(),
                end == s0.end_spec(),
                s0.wf(),
                s0.map_type_spec() == MapType::Framed ==> forall|i: int|
                    0 <= i < v - start && s0.frames_view()[i] is Some ==> mem.is_free(
                        (#[trigger] s0.frames_view()[i]).unwrap().ppn.0 as int,
                    ),
                forall|i: int|
                    0 <= i < v - start ==> (#[trigger] self.frames_view()[i]) is None,
                s0.map_type_spec() == MapType::Framed ==> forall|i: int, k: int|
                    #![trigger s0.frames_view()[i], s0.frames_view()[k]]
                    0 <= i < k < s0.len_spec() ==> s0.frames_view()[i].unwrap().ppn.0
                        != s0.frames_view()[k].unwrap().ppn.0,
                page_table.inv(*mem),
                page_table.root() == rt,
                page_table.nodes() == pt0.nodes(),
                self.wf(),
                self.range_spec() == s0.range_spec(),
                self.start_spec() == s0.start_spec(),
                self.end_spec() == s0.end_spec(),
                self.map_type_spec() == s0.map_type_spec(),
                self.perm_spec() == s0.perm_spec(),
                forall|i: int|
                    v - start <= i < s0.len_spec() ==> #[trigger] self.frames_view()[i]
                        == s0.frames_view()[i],
                forall|i: int|
                    v - start <= i < s0.len_spec() ==> #[trigger] self.entry_ok(*mem, rt, i),
                forall|v2: u64|
                    start <= v2 < v ==> #[trigger] view_at(*mem, rt, v2) is None,
                forall|v2: u64|
                    v2 < 0x800_0000 && !(start <= v2 < v) ==> #[trigger] view_at(*mem, rt, v2)
                        == view_at(m0, rt, v2),
                forall|q: int|
                    !pt0.nodes().contains(q) ==> #[trigger] page_same(m0, *mem, q),
                forall|q: int|
                    !s0.owns_frame(q) ==> #[trigger] mem.is_free(q) == m0.is_free(q),
                mem.base_spec() == m0.base_spec(),
                mem.win_len() == m0.win_len(),
            decreases end - v,
        {
            let ghost mi = *mem;
            let ghost si = *self;
            proof {
                let iv = v - start;
                assert(self.entry_ok(*mem, rt, iv));
            }
            self.unmap_one(page_table, mem, VirtPageNum(v));
            proof {
                let iv = v - start;
                assert forall|v2: u64| start <= v2 < v + 1 implies #[trigger] view_at(
                    *mem,
                    rt,
                    v2,
                ) is None by {
                    if v2 != v {
                        assert(view_at(*mem, rt, v2) == view_at(mi, rt, v2));
                    }
                }
                assert forall|v2: u64|
                    v2 < 0x800_0000 && !(start <= v2 < v + 1) implies #[trigger] view_at(
                    *mem,
                    rt,
                    v2,
                ) == view_at(m0, rt, v2) by {
                    assert(view_at(*mem, rt, v2) == view_at(mi, rt, v2));
                }
                assert forall|i: int|
                    v + 1 - start <= i < si.len_spec() && si.map_type_spec()
                        == MapType::Framed implies page_same(
                    mi,
                    *mem,
                    (#[trigger] si.frames_view()[i]).unwrap().ppn.0 as int,
                ) && mem.is_free(si.frames_view()[i].unwrap().ppn.0 as int) == mi.is_free(
                    si.frames_view()[i].unwrap().ppn.0 as int,
                ) by {
                    let pp = si.frames_view()[i].unwrap().ppn.0 as int;
                    assert(si.entry_ok(mi, rt, i));
                    crate::phys_mem::lemma_page_roles(mi, pp);
                    if pt0.nodes().contains(pp) {
                        assert(mi.is_table(pp));
                    }
                    assert(page_same(mi, *mem, pp));
                    let tp = s0.frames_view()[iv].unwrap().ppn.0 as int;
                    assert(si.frames_view()[iv] == s0.frames_view()[iv]);
                    assert(si.frames_view()[i] == s0.frames_view()[i]);
                    assert(pp != tp);
                    assert(mem.is_free(pp) == mi.is_free(pp));
                }
                lemma_area_entries_preserved(si, mi, *mem, rt, (v + 1 - start) as int);
                assert forall|i: int|
                    v + 1 - start <= i < s0.len_spec() implies #[trigger] self.entry_ok(
                    *mem,
                    rt,
                    i,
                ) by {
                    assert(si.entry_ok(*mem, rt, i));
                    assert(self.frames_view()[i] == si.frames_view()[i]);
                }
                assert forall|i: int|
                    0 <= i < v + 1 - start implies (#[trigger] self.frames_view()[i]) is None by {
                    if i < iv {
                        assert(self.frames_view()[i] == si.frames_view()[i]);
                    }
                }
                assert forall|q: int| !pt0.nodes().contains(q) implies #[trigger] page_same(
                    m0,
                    *mem,
                    q,
                ) by {
                    assert(page_same(m0, mi, q));
                    assert(page_same(mi, *mem, q));
                }
                if s0.map_type_spec() == MapType::Framed {
                    let tp = s0.frames_view()[iv].unwrap().ppn.0 as int;
                    assert(si.frames_view()[iv] == s0.frames_view()[iv]);
                    assert(s0.owns_frame(tp));
                    assert forall|q: int| !s0.owns_frame(q) implies #[trigger] mem.is_free(q)
                        == m0.is_free(q) by {
                        assert(q != tp);
                        assert(mem.is_free(q) == mi.is_free(q));
                    }
                    assert forall|i: int|
                        0 <= i < v + 1 - start && s0.frames_view()[i] is Some implies mem.is_free(
                        (#[trigger] s0.frames_view()[i]).unwrap().ppn.0 as int,
                    ) by {
                        if i < iv {
                            let pp = s0.frames_view()[i].unwrap().ppn.0 as int;
                            assert(pp != tp);
                            assert(mem.is_free(pp) == mi.is_free(pp));
                        }
                    }
                } else {
                    assert(mem.alloc_view() == mi.alloc_view());
                    assert forall|q: int| !s0.owns_frame(q) implies #[trigger] mem.is_free(q)
                        == m0.is_free(q) by {
                        assert(mem.is_free(q) == mi.is_free(q));
                    }
                }
            }
            v = v + 1;
        }
    }

    /// Copies `data` into the area, one page at a time from its first
    /// page; the tail of the last touched page and all later pages keep
    /// their old bytes.
    #[verifier::rlimit(100)]
    #[verifier::loop_isolation(false)]
    pub fn copy_data(&self, page_table: &PageTable, mem: &mut PhysMem, data: &[u8])
        requires
            page_table.inv(*old(mem)),
            self.wf(),
            self.map_type_spec() == MapType::Framed,
            data@.len() <= self.len_spec() * 4096,
            forall|i: int|
                0 <= i < self.len_spec() ==> #[trigger] self.entry_ok(
                    *old(mem),
                    page_table.root(),
                    i,
                ),
            forall|i: int, k: int|
                #![trigger self.frames_view()[i], self.frames_view()[k]]
                0 <= i < k < self.len_spec() ==> self.frames_view()[i].unwrap().ppn.0
                    != self.frames_view()[k].unwrap().ppn.0,
        ensures
            page_table.inv(*final(mem)),
            forall|i: int|
                0 <= i < self.len_spec() ==> #[trigger] self.entry_ok(
                    *final(mem),
                    page_table.root(),
                    i,
                ),
            forall|i: int, k: int|
                #![trigger final(mem).data_at(self.frames_view()[i].unwrap().ppn.0 as int)[k]]
                0 <= i < self.len_spec() && 0 <= k < 4096 ==> final(mem).data_at(
                    self.frames_view()[i].unwrap().ppn.0 as int,
                )[k] == if i * 4096 + k < data@.len() {
                    data@[i * 4096 + k]
                } else {
                    old(mem).data_at(self.frames_view()[i].unwrap().ppn.0 as int)[k]
                },
            forall|v: u64| #[trigger]
                view_at(*final(mem), page_table.root(), v) == view_at(
                    *old(mem),
                    page_table.root(),
                    v,
                ),
            forall|q: int|
                (forall|i: int|
                    0 <= i < self.len_spec() ==> q != (#[trigger] self.frames_view()[i]).unwrap().ppn.0)
                    ==> #[trigger] page_same(*old(mem), *final(mem), q),
            final(mem).alloc_view() == old(mem).alloc_view(),
            final(mem).base_spec() == old(mem).base_spec(),
            final(mem).win_len() == old(mem).win_len(),
    {
        let ghost m0 = *mem;
        let ghost rt = page_table.root();
        let n = self.data_frames.len();
        let dlen = data.len();
        proof {
            assert forall|j: int|
                0 <= j < self.len_spec() implies #[trigger] mem.is_data(
                self.frames_view()[j].unwrap().ppn.0 as int,
            ) by {
                assert(self.entry_ok(m0, rt, j));
            }
            assert forall|q: int|
                (forall|j: int|
                    0 <= j < self.len_spec() ==> q != (#[trigger] self.frames_view()[j]).unwrap().ppn.0)
                    implies #[trigger] page_same(m0, *mem, q) by {}
        }
        let mut i: usize = 0;
        while i < n && (i as u64) * 4096 < (dlen as u64)
            invariant
                0 <= i <= n,
                n == self.len_spec(),
                dlen == data@.len(),
                mem.wf(),
                i * 4096 <= dlen + 4096,
                forall|j: int, k: int|
                    #![trigger mem.data_at(self.frames_view()[j].unwrap().ppn.0 as int)[k]]
                    0 <= j < i && 0 <= k < 4096 ==> mem.data_at(
                        self.frames_view()[j].unwrap().ppn.0 as int,
                    )[k] == if j * 4096 + k < dlen {
                        data@[j * 4096 + k]
                    } else {
                        m0.data_at(self.frames_view()[j].unwrap().ppn.0 as int)[k]
                    },
                forall|q: int|
                    (forall|j: int|
                        0 <= j < self.len_spec() ==> q != (#[trigger] self.frames_view()[j]).unwrap().ppn.0)
                        ==> #[trigger] page_same(m0, *mem, q),
                forall|j: int|
                    i <= j < n ==> #[trigger] mem.data_at(
                        self.frames_view()[j].unwrap().ppn.0 as int,
                    ) == m0.data_at(self.frames_view()[j].unwrap().ppn.0 as int),
                forall|j: int|
                    0 <= j < n ==> #[trigger] mem.is_data(
                        self.frames_view()[j].unwrap().ppn.0 as int,
                    ),
                mem.alloc_view() == m0.alloc_view(),
                mem.base_spec() == m0.base_spec(),
                mem.win_len() == m0.win_len(),
            decreases n - i,
        {
            let ghost mi = *mem;
            let t_ppn = match &self.data_frames[i] {
                Some(t) => t.ppn,
                None => {
                    proof {
                        assert(self.entry_ok(m0, rt, i as int));
                        assert(false);
                    }
                    vstd::pervasive::unreached()
                },
            };
            let lower = i * 4096;
            let upper = if dlen - lower < 4096 {
                dlen
            } else {
                lower + 4096
            };
            let chunk = &data[lower..upper];
            mem.write_data(t_ppn.0, 0, chunk);
            proof {
                let pp = t_ppn.0 as int;
                assert(pp == self.frames_view()[i as int].unwrap().ppn.0);
                assert forall|j: int, k: int|
                    #![trigger mem.data_at(self.frames_view()[j].unwrap().ppn.0 as int)[k]]
                    0 <= j < i + 1 && 0 <= k < 4096 implies mem.data_at(
                    self.frames_view()[j].unwrap().ppn.0 as int,
                )[k] == if j * 4096 + k < dlen {
                    data@[j * 4096 + k]
                } else {
                    m0.data_at(self.frames_view()[j].unwrap().ppn.0 as int)[k]
                } by {
                    let qq = self.frames_view()[j].unwrap().ppn.0 as int;
                    if j < i {
                        assert(qq != pp);
                        assert(page_same(mi, *mem, qq));
                        assert(mi.data_at(qq)[k] == if j * 4096 + k < dlen {
                            data@[j * 4096 + k]
                        } else {
                            m0.data_at(qq)[k]
                        });
                    } else {
                        assert(qq == pp);
                        assert(mi.data_at(pp) == m0.data_at(pp));
                        if k < chunk@.len() {
                            assert(chunk@[k] == data@[i * 4096 + k]);
                        }
                    }
                }
                assert forall|q: int|
                    (forall|j: int|
                        0 <= j < self.len_spec() ==> q != (#[trigger] self.frames_view()[j]).unwrap().ppn.0)
                        implies #[trigger] page_same(m0, *mem, q) by {
                    assert(page_same(m0, mi, q));
                    assert(q != pp);
                    assert(page_same(mi, *mem, q));
                }
                assert forall|j: int|
                    i + 1 <= j < n implies #[trigger] mem.data_at(
                    self.frames_view()[j].unwrap().ppn.0 as int,
                ) == m0.data_at(self.frames_view()[j].unwrap().ppn.0 as int) by {
                    let qq = self.frames_view()[j].unwrap().ppn.0 as int;
                    assert(qq != pp);
                    assert(page_same(mi, *mem, qq));
                }
                assert forall|j: int|
                    0 <= j < n implies #[trigger] mem.is_data(
                    self.frames_view()[j].unwrap().ppn.0 as int,
                ) by {
                    let qq = self.frames_view()[j].unwrap().ppn.0 as int;
                    if qq != pp {
                        assert(page_same(mi, *mem, qq));
                    }
                }
            }
            i = i + 1;
        }
        proof {
            assert forall|p: int|
                page_table.nodes().contains(p) implies #[trigger] page_same(m0, *mem, p) by {
                crate::phys_mem::lemma_page_roles(m0, p);
                assert(m0.is_table(p));
                if exists|j: int|
                    0 <= j < self.len_spec() && p == (#[trigger] self.frames_view()[j]).unwrap().ppn.0 {
                    let j = choose|j: int|
                        0 <= j < self.len_spec() && p == (#[trigger] self.frames_view()[j]).unwrap().ppn.0;
                    assert(self.entry_ok(m0, rt, j));
                    assert(m0.is_data(p));
                    assert(false);
                } else {
                    assert forall|j: int|
                        0 <= j < self.len_spec() implies p != (#[trigger] self.frames_view()[j]).unwrap().ppn.0 by {}
                }
            }
            assert forall|p: int, k: int|
                page_table.nodes().contains(p) implies #[trigger] mem.entry_at(p, k)
                == m0.entry_at(p, k) by {
                assert(page_same(m0, *mem, p));
            }
            lemma_walk_unchanged(*page_table, m0, *mem);
            lemma_inv_preserved(*page_table, m0, *mem);
            assert forall|i2: int|
                0 <= i2 < self.len_spec() implies #[trigger] self.entry_ok(*mem, rt, i2) by {
                assert(self.entry_ok(m0, rt, i2));
                assert(view_at(*mem, rt, (self.start_spec() + i2) as u64) == view_at(
                    m0,
                    rt,
                    (self.start_spec() + i2) as u64,
                ));
            }
        }
    }

    pub fn get_range(&self) -> (r: VPNRange)
        ensures
            r == self.range_spec(),
            r.start() == self.start_spec(),
            r.end() == self.end_spec(),
    {
        self.vpn_range
    }
}

/// Canonical page number of the shared trampoline page: the walk slot of
/// the highest virtual page.
pub const TRAMPOLINE_VPN: u64 = 0x7FF_FFFF;



/// Permission bits an ELF segment maps with: `U` plus its R/W/X.
pub open spec fn seg_perm_bits(sg: crate::elf::ElfSegmentView) -> u8 {
    (((MAP_PERM_U | (if sg.readable {
        MAP_PERM_R
    } else {
        0
    })) | (if sg.writable {
        MAP_PERM_W
    } else {
        0
    })) | (if sg.executable {
        MAP_PERM_X
    } else {
        0
    }))
}

/// Well-formed image: segments page-ordered, inside the user region,
/// their file bytes fitting their pages.
pub open spec fn img_wf(segs: Seq<crate::elf::ElfSegmentView>) -> bool {
    forall|k: int|
        0 <= k < segs.len() ==> {
            let sg = #[trigger] segs[k];
            let lo = spec_floor(sg.start_va);
            let hi = spec_ceil((sg.start_va + sg.mem_size) as u64);
            &&& sg.start_va + sg.mem_size <= u64::MAX
            &&& lo >= (if k == 0 {
                0
            } else {
                spec_ceil((segs[k - 1].start_va + segs[k - 1].mem_size) as u64) as int
            })
            &&& hi >= lo
            &&& hi < 0x700_0000
            &&& sg.data.len() <= (hi - lo) * 4096
        }
}

/// Frames that suffice to map the first `k` segments.
pub open spec fn img_need(segs: Seq<crate::elf::ElfSegmentView>, k: int) -> int
    decreases k,
{
    if k <= 0 {
        0
    } else {
        img_need(segs, k - 1) + 3 * (spec_ceil((segs[k - 1].start_va + segs[k - 1].mem_size)
            as u64) - spec_floor(segs[k - 1].start_va))
    }
}

/// Prefix needs never shrink.
pub proof fn lemma_img_need_mono(segs: Seq<crate::elf::ElfSegmentView>, k: int)
    requires
        0 <= k <= segs.len(),
        img_wf(segs),
    ensures
        img_need(segs, k) >= 0,
        forall|j: int| 0 <= j <= k ==> #[trigger] img_need(segs, j) <= img_need(segs, k),
    decreases k,
{
    if k > 0 {
        lemma_img_need_mono(segs, k - 1);
    }
}

/// Well-formed kernel section list: page-ordered, below the fixed-page
/// region, with valid permission bits.
pub open spec fn sections_wf(secs: Seq<(u64, u64, u8)>) -> bool {
    forall|k: int|
        0 <= k < secs.len() ==> {
            let lo = spec_floor((#[trigger] secs[k]).0);
            let hi = spec_ceil(secs[k].1);
            &&& lo >= (if k == 0 {
                0
            } else {
                spec_ceil(secs[k - 1].1) as int
            })
            &&& hi >= lo
            &&& hi < 0x700_0000
            &&& secs[k].2 & 0xE1 == 0
        }
}

/// Frames that suffice to map the first `k` sections.
pub open spec fn sections_need(secs: Seq<(u64, u64, u8)>, k: int) -> int
    decreases k,
{
    if k <= 0 {
        0
    } else {
        sections_need(secs, k - 1) + 3 * (spec_ceil(secs[k - 1].1) - spec_floor(secs[k - 1].0))
    }
}

/// Prefix needs never shrink and each step adds a non-negative amount.
pub proof fn lemma_sections_need_mono(secs: Seq<(u64, u64, u8)>, k: int)
    requires
        0 <= k <= secs.len(),
        sections_wf(secs),
    ensures
        sections_need(secs, k) >= 0,
        forall|j: int| 0 <= j <= k ==> #[trigger] sections_need(secs, j) <= sections_need(secs, k),
    decreases k,
{
    if k > 0 {
        lemma_sections_need_mono(secs, k - 1);
    }
}


/// Chunks of `d` cut every 4096 bytes concatenate back to `d`: the tail
/// of the chunk list flattens to the matching tail of `d`.
proof fn lemma_chunks_flatten(pieces: Seq<Seq<u8>>, d: Seq<u8>, j: int)
    requires
        d.len() > 0,
        pieces.len() == (d.len() - 1) / 4096 + 1,
        0 <= j <= pieces.len(),
        forall|k: int|
            0 <= k < pieces.len() ==> #[trigger] pieces[k] == d.subrange(
                k * 4096,
                if (k + 1) * 4096 <= d.len() {
                    ((k + 1) * 4096) as int
                } else {
                    d.len() as int
                },
            ),
    ensures
        pieces.skip(j).flatten() == d.subrange(
            if j * 4096 <= d.len() {
                (j * 4096) as int
            } else {
                d.len() as int
            },
            d.len() as int,
        ),
    decreases pieces.len() - j,
{
    let n = d.len() as int;
    vstd::arithmetic::div_mod::lemma_fundamental_div_mod(n - 1, 4096);
    if j == pieces.len() {
        assert(j * 4096 >= n) by (nonlinear_arith)
            requires
                j == (n - 1) / 4096 + 1,
                n - 1 == 4096 * ((n - 1) / 4096) + (n - 1) % 4096,
                0 <= (n - 1) % 4096 < 4096,
        ;
        assert(pieces.skip(j) =~= Seq::<Seq<u8>>::empty());
        assert(pieces.skip(j).flatten() =~= d.subrange(n, n));
    } else {
        lemma_chunks_flatten(pieces, d, j + 1);
        assert(j * 4096 <= n - 1) by (nonlinear_arith)
            requires
                0 <= j <= (n - 1) / 4096,
                n - 1 == 4096 * ((n - 1) / 4096) + (n - 1) % 4096,
                0 <= (n - 1) % 4096,
        ;
        let sj = pieces.skip(j);
        assert(sj.len() == pieces.len() - j);
        assert(sj.first() == pieces[j]);
        assert(sj.drop_first() =~= pieces.skip(j + 1));
        assert(sj.flatten() == sj.first().add(sj.drop_first().flatten()));
        assert(sj.flatten() == pieces[j] + pieces.skip(j + 1).flatten());
        if (j + 1) * 4096 <= n {
            assert(sj.flatten() =~= d.subrange(j * 4096, n));
        } else {
            // the last chunk runs to the end of `d`
            assert(pieces.skip(j + 1).flatten() == d.subrange(n, n));
            assert(sj.flatten() =~= d.subrange(j * 4096, n));
        }
    }
}

/// The copy round trip: a framed area that holds the bytes of `d` and
/// then zeros, when read back through the walk in the pieces
/// `translated_byte_buffer` prescribes for `[ptr, ptr + |d|)`,
/// concatenates to exactly `d`.
pub proof fn law_copy_data_round_trip(
    mem: PhysMem,
    root: int,
    a: MapArea,
    d: Seq<u8>,
    pieces: Seq<Seq<u8>>,
    ptr: u64,
)
    requires
        mem.wf(),
        ptr % 4096 == 0,
        ptr + d.len() <= u64::MAX,
        spec_floor(ptr) == a.start_spec(),
        0 < d.len() <= a.len_spec() * 4096,
        a.wf(),
        a.map_type_spec() == MapType::Framed,
        forall|i: int| 0 <= i < a.len_spec() ==> #[trigger] a.entry_ok(mem, root, i),
        forall|i: int, b: int|
            #![trigger mem.data_at(a.frames_view()[i].unwrap().ppn.0 as int)[b]]
            0 <= i < a.len_spec() && 0 <= b < 4096 ==> mem.data_at(
                a.frames_view()[i].unwrap().ppn.0 as int,
            )[b] == if i * 4096 + b < d.len() {
                d[i * 4096 + b]
            } else {
                0
            },
        pieces.len() == spec_ceil((ptr + d.len()) as u64) - spec_floor(ptr),
        forall|j: int|
            0 <= j < pieces.len() ==> #[trigger] pieces[j] == {
                let lo = spec_floor(ptr);
                let hi = spec_ceil((ptr + d.len()) as u64);
                let e = view_at(mem, root, (lo + j) as u64);
                let pg = mem.data_at(e.unwrap().spec_ppn() as int);
                let st = if j == 0 {
                    (ptr % 4096) as int
                } else {
                    0
                };
                let en = if lo + j == hi - 1 {
                    ((ptr + d.len() - 1) % 4096 + 1) as int
                } else {
                    4096
                };
                pg.subrange(st, en)
            },
    ensures
        pieces.flatten() == d,
{
    let n = d.len() as int;
    let lo = spec_floor(ptr) as int;
    let hi = spec_ceil((ptr + d.len()) as u64) as int;
    vstd::arithmetic::div_mod::lemma_fundamental_div_mod(ptr as int, 4096);
    assert(ptr == lo * 4096);
    // the number of pieces is the number of 4096-byte chunks of `d`
    vstd::arithmetic::div_mod::lemma_mod_multiples_vanish(lo, n, 4096);
    assert((lo * 4096 + n) % 4096 == n % 4096);
    vstd::arithmetic::div_mod::lemma_hoist_over_denominator(n, lo, 4096nat);
    assert((n + lo * 4096) / 4096 == n / 4096 + lo);
    vstd::arithmetic::div_mod::lemma_fundamental_div_mod(n, 4096);
    vstd::arithmetic::div_mod::lemma_fundamental_div_mod(n - 1, 4096);
    assert(hi - lo == (n - 1) / 4096 + 1) by (nonlinear_arith)
        requires
            n > 0,
            hi == (if n % 4096 == 0 {
                n / 4096 + lo
            } else {
                n / 4096 + lo + 1
            }),
            n == 4096 * (n / 4096) + n % 4096,
            n - 1 == 4096 * ((n - 1) / 4096) + (n - 1) % 4096,
            0 <= n % 4096 < 4096,
            0 <= (n - 1) % 4096 < 4096,
    ;
    assert(pieces.len() <= a.len_spec()) by (nonlinear_arith)
        requires
            pieces.len() == (n - 1) / 4096 + 1,
            n <= a.len_spec() * 4096,
            n - 1 == 4096 * ((n - 1) / 4096) + (n - 1) % 4096,
            0 <= (n - 1) % 4096 < 4096,
    ;
    // each piece is exactly its chunk of `d`
    assert forall|j: int| 0 <= j < pieces.len() implies #[trigger] pieces[j] == d.subrange(
        j * 4096,
        if (j + 1) * 4096 <= n {
            ((j + 1) * 4096) as int
        } else {
            n
        },
    ) by {
        assert(a.entry_ok(mem, root, j));
        let e = view_at(mem, root, ((a.start_spec() + j) as u64));
        let pp = a.frames_view()[j].unwrap().ppn.0 as int;
        assert(e is Some && e.unwrap().spec_ppn() == pp);
        assert(mem.is_data(pp));
        let pg = mem.data_at(pp);
        assert(pg.len() == 4096);
        let st = if j == 0 {
            (ptr % 4096) as int
        } else {
            0
        };
        assert(st == 0);
        let en = if lo + j == hi - 1 {
            ((ptr + d.len() - 1) % 4096 + 1) as int
        } else {
            4096
        };
        if lo + j == hi - 1 {
            // the last piece ends where `d` does
            vstd::arithmetic::div_mod::lemma_mod_multiples_vanish(lo, n - 1, 4096);
            assert((lo * 4096 + n - 1) % 4096 == (n - 1) % 4096);
            assert(en == (n - 1) % 4096 + 1);
            assert(j == (n - 1) / 4096);
            assert(j * 4096 + en == n) by (nonlinear_arith)
                requires
                    j == (n - 1) / 4096,
                    en == (n - 1) % 4096 + 1,
                    n - 1 == 4096 * ((n - 1) / 4096) + (n - 1) % 4096,
            ;
        } else {
            assert(j + 1 <= (n - 1) / 4096);
            assert((j + 1) * 4096 <= n - 1) by (nonlinear_arith)
                requires
                    j + 1 <= (n - 1) / 4096,
                    n - 1 == 4096 * ((n - 1) / 4096) + (n - 1) % 4096,
                    0 <= (n - 1) % 4096,
            ;
        }
        assert(pieces[j] == pg.subrange(st, en));
        assert forall|b: int| 0 <= b < en implies pg[b] == d[j * 4096 + b] by {
            assert(j * 4096 + b < n);
            assert(mem.data_at(pp)[b] == d[j * 4096 + b]);
        }
        assert(pieces[j] =~= d.subrange(
            j * 4096,
            if (j + 1) * 4096 <= n {
                ((j + 1) * 4096) as int
            } else {
                n
            },
        ));
    }
    lemma_chunks_flatten(pieces, d, 0);
    assert(pieces.skip(0) =~= pieces);
    assert(d.subrange(0, n) =~= d);
}

/// After an area is dropped, its framed pages are free again and no
/// page outside its ownership changed allocation state.
pub open spec fn dropped_area_freed(a: MapArea, mpre: PhysMem, mpost: PhysMem) -> bool {
    &&& a.map_type_spec() == MapType::Framed ==> forall|i: int|
        0 <= i < a.len_spec() && a.frames_view()[i] is Some ==> mpost.is_free(
            (#[trigger] a.frames_view()[i]).unwrap().ppn.0 as int,
        )
    &&& forall|q: int| !a.owns_frame(q) ==> #[trigger] mpost.is_free(q) == mpre.is_free(q)
}

/// One address space: a page table plus the areas pushed into it.
pub struct MemorySet {
    page_table: PageTable,
    areas: Vec<MapArea>,
}

impl MemorySet {
    pub closed spec fn pt_spec(self) -> PageTable {
        self.page_table
    }

    pub open spec fn root_spec(self) -> int {
        self.pt_spec().root()
    }

    pub closed spec fn areas_view(self) -> Seq<MapArea> {
        self.areas@
    }

    /// Whether some area's range holds page number `v`.
    pub open spec fn is_area_vpn(self, v: int) -> bool {
        exists|j: int|
            0 <= j < self.areas_view().len() && (#[trigger] self.areas_view()[j]).holds(v)
    }

    /// The composite invariant: a well-formed table, every area fully
    /// mapped as it prescribes, area ranges pairwise disjoint, and no two
    /// area slots owning the same frame.
    pub open spec fn inv(self, mem: PhysMem) -> bool {
        &&& self.pt_spec().inv(mem)
        &&& forall|j: int|
            0 <= j < self.areas_view().len() ==> (#[trigger] self.areas_view()[j]).wf()
        &&& forall|j: int, i: int|
            #![trigger self.areas_view()[j].entry_ok(mem, self.root_spec(), i)]
            0 <= j < self.areas_view().len() && 0 <= i < self.areas_view()[j].len_spec()
                ==> self.areas_view()[j].entry_ok(mem, self.root_spec(), i)
        &&& forall|j: int, k: int, v: int|
            #![trigger self.areas_view()[j].holds(v), self.areas_view()[k].holds(v)]
            0 <= j < k < self.areas_view().len() ==> !(self.areas_view()[j].holds(v)
                && self.areas_view()[k].holds(v))
        &&& forall|j: int, k: int, q: int|
            #![trigger self.areas_view()[j].owns_frame(q), self.areas_view()[k].owns_frame(q)]
            0 <= j < k < self.areas_view().len() ==> !(self.areas_view()[j].owns_frame(q)
                && self.areas_view()[k].owns_frame(q))
        &&& forall|j: int, i: int, k: int|
            #![trigger self.areas_view()[j].frames_view()[i], self.areas_view()[j].frames_view()[k]]
            0 <= j < self.areas_view().len() && 0 <= i < k < self.areas_view()[j].len_spec()
                && self.areas_view()[j].map_type_spec() == MapType::Framed
                ==> self.areas_view()[j].frames_view()[i].unwrap().ppn.0
                != self.areas_view()[j].frames_view()[k].unwrap().ppn.0
    }

    /// A bare address space: a fresh root node, no areas, nothing mapped.
    pub fn new_bare(mem: &mut PhysMem) -> (r: MemorySet)
        requires
            old(mem).wf(),
            old(mem).free_count() >= 1,
        ensures
            r.inv(*final(mem)),
            r.areas_view().len() == 0,
            forall|v: u64| #[trigger] view_at(*final(mem), r.root_spec(), v) is None,
            final(mem).free_count() == old(mem).free_count() - 1,
            forall|q: int| !old(mem).is_free(q) ==> !final(mem).is_free(q),
            forall|q: int|
                !old(mem).is_free(q) ==> #[trigger] page_same(*old(mem), *final(mem), q),
            final(mem).base_spec() == old(mem).base_spec(),
            final(mem).win_len() == old(mem).win_len(),
    {
        let page_table = PageTable::new(mem);
        proof {
            assert forall|q: int| !old(mem).is_free(q) implies #[trigger] page_same(
                *old(mem),
                *mem,
                q,
            ) by {}
        }
        MemorySet { page_table, areas: Vec::new() }
    }

    /// The `satp` token of this space.
    pub fn token(&self, mem: &PhysMem) -> (r: u64)
        requires
            self.inv(*mem),
        ensures
            r == (8u64 << 60) | (self.root_spec() as u64),
            r & 0xFFF_FFFF_FFFFu64 == self.root_spec(),
    {
        proof {
            assert(self.pt_spec().nodes().contains(self.root_spec()));
        }
        self.page_table.token()
    }

    /// The walk of the page table, as the hardware would do it.
    pub fn translate(&self, mem: &PhysMem, vpn: VirtPageNum) -> (r: Option<PageTableEntry>)
        ensures
            r == walk(*mem, self.root_spec(), vpn.0),
    {
        self.page_table.translate(mem, vpn)
    }

    /// Physical address for `va`: the valid mapping of its page, offset
    /// added. Permission bits are not checked; a page with no valid
    /// mapping (even one whose paging nodes persist after an unmap)
    /// yields `None`.
    pub fn translate_addr_unchecked(&self, mem: &PhysMem, va: VirtAddr) -> (r: Option<PhysAddr>)
        ensures
            match view_at(*mem, self.root_spec(), spec_floor(va.0)) {
                Some(e) => r == Some(PhysAddr((e.spec_ppn() * 4096 + va.0 % 4096) as u64)),
                None => r is None,
            },
    {
        let offset = va.page_offset();
        let vpn = va.floor();
        match self.translate(mem, vpn) {
            Some(pte) => {
                if !pte.is_valid() {
                    return None;
                }
                let pa = pte.ppn();
                proof {
                    assert(pa.0 * 4096 + offset < 0x1000_0000_0000u64 * 4096) by (nonlinear_arith)
                        requires pa.0 < 0x1000_0000_0000u64 && offset < 4096;
                }
                Some(PhysAddr(pa.0 * 4096 + offset))
            },
            None => None,
        }
    }

    /// Maps the shared trampoline page, outside any area: its slot must
    /// still be empty.
    pub fn map_trampoline(&mut self, mem: &mut PhysMem, strampoline: PhysPageNum)
        requires
            old(self).inv(*old(mem)),
            view_at(*old(mem), old(self).root_spec(), TRAMPOLINE_VPN) is None,
            strampoline.0 < 0x1000_0000_0000u64,
            old(mem).free_count() >= 2,
        ensures
            final(self).inv(*final(mem)),
            final(self).root_spec() == old(self).root_spec(),
            final(self).areas_view() == old(self).areas_view(),
            ({
                let r = view_at(*final(mem), old(self).root_spec(), TRAMPOLINE_VPN);
                &&& r is Some
                &&& r.unwrap().spec_ppn() == strampoline.0
                &&& r.unwrap().spec_flags() == (PTE_R | PTE_X) | PTE_V
            }),
            forall|v2: u64|
                v2 < 0x800_0000 && v2 != TRAMPOLINE_VPN ==> #[trigger] view_at(
                    *final(mem),
                    old(self).root_spec(),
                    v2,
                ) == view_at(*old(mem), old(self).root_spec(), v2),
            forall|q: int| !old(mem).is_free(q) ==> !final(mem).is_free(q),
            final(mem).free_count() >= old(mem).free_count() - 2,
            final(mem).base_spec() == old(mem).base_spec(),
            final(mem).win_len() == old(mem).win_len(),
    {
        let ghost m0 = *mem;
        let ghost s0 = *self;
        let ghost rt = old(self).root_spec();
        let fl = PTEFlags::from_bits(PTE_R | PTE_X);
        self.page_table.map(mem, VirtPageNum(TRAMPOLINE_VPN), strampoline, fl);
        proof {
            assert forall|v2: u64|
                v2 < 0x800_0000 && v2 != TRAMPOLINE_VPN implies #[trigger] view_at(
                *mem,
                rt,
                v2,
            ) == view_at(m0, rt, v2) by {
                if same_slot(v2, TRAMPOLINE_VPN) {
                    lemma_same_slot_small(v2, TRAMPOLINE_VPN);
                }
            }
            assert forall|j: int, i: int|
                #![trigger self.areas_view()[j].entry_ok(*mem, rt, i)]
                0 <= j < self.areas_view().len() && 0 <= i
                    < self.areas_view()[j].len_spec() implies self.areas_view()[j].entry_ok(
                *mem,
                rt,
                i,
            ) by {
                let a = s0.areas_view()[j];
                assert(a.entry_ok(m0, rt, i));
                let v = (a.start_spec() + i) as u64;
                assert(v != TRAMPOLINE_VPN) by {
                    if v == TRAMPOLINE_VPN {
                        assert(view_at(m0, rt, v) is Some);
                    }
                }
                assert(view_at(*mem, rt, v) == view_at(m0, rt, v));
                if a.map_type_spec() == MapType::Framed {
                    let pp = a.frames_view()[i].unwrap().ppn.0 as int;
                    crate::phys_mem::lemma_page_roles(m0, pp);
                    if s0.pt_spec().nodes().contains(pp) {
                        assert(m0.is_table(pp));
                    }
                    assert(page_same(m0, *mem, pp));
                }
            }
        }
    }

    /// Maps `map_area` into the table, copies `data` into it if given, and
    /// records it. The area's range must be wholly unmapped.
    #[verifier::rlimit(100)]
    pub fn push(&mut self, mem: &mut PhysMem, map_area: MapArea, data: Option<&[u8]>)
        requires
            old(self).inv(*old(mem)),
            map_area.wf(),
            map_area.unfilled(),
            forall|v: u64|
                map_area.holds(v as int) ==> #[trigger] view_at(
                    *old(mem),
                    old(self).root_spec(),
                    v,
                ) is None,
            old(mem).free_count() >= 3 * map_area.len_spec(),
            data is Some ==> map_area.map_type_spec() == MapType::Framed && data.unwrap()@.len()
                <= map_area.len_spec() * 4096,
        ensures
            final(self).inv(*final(mem)),
            final(self).root_spec() == old(self).root_spec(),
            final(self).areas_view().len() == old(self).areas_view().len() + 1,
            forall|j: int|
                0 <= j < old(self).areas_view().len() ==> #[trigger] final(self).areas_view()[j]
                    == old(self).areas_view()[j],
            ({
                let a = final(self).areas_view().last();
                &&& a.start_spec() == map_area.start_spec()
                &&& a.end_spec() == map_area.end_spec()
                &&& a.map_type_spec() == map_area.map_type_spec()
                &&& a.perm_spec() == map_area.perm_spec()
            }),
            forall|i: int|
                0 <= i < map_area.len_spec() ==> #[trigger] final(self).areas_view().last().entry_ok(
                    *final(mem),
                    old(self).root_spec(),
                    i,
                ),
            data is Some ==> forall|i: int, k: int|
                #![trigger final(mem).data_at(final(self).areas_view().last().frames_view()[i].unwrap().ppn.0 as int)[k]]
                0 <= i < map_area.len_spec() && 0 <= k < 4096 ==> final(mem).data_at(
                    final(self).areas_view().last().frames_view()[i].unwrap().ppn.0 as int,
                )[k] == if i * 4096 + k < data.unwrap()@.len() {
                    data.unwrap()@[i * 4096 + k]
                } else {
                    0
                },
            data is None && map_area.map_type_spec() == MapType::Framed ==> forall|i: int, k: int|
                #![trigger final(mem).data_at(final(self).areas_view().last().frames_view()[i].unwrap().ppn.0 as int)[k]]
                0 <= i < map_area.len_spec() && 0 <= k < 4096 ==> final(mem).data_at(
                    final(self).areas_view().last().frames_view()[i].unwrap().ppn.0 as int,
                )[k] == 0,
            forall|v2: u64|
                v2 < 0x800_0000 && !map_area.holds(v2 as int) ==> #[trigger] view_at(
                    *final(mem),
                    old(self).root_spec(),
                    v2,
                ) == view_at(*old(mem), old(self).root_spec(), v2),
            forall|q: int| !old(mem).is_free(q) ==> !final(mem).is_free(q),
            // pages owned elsewhere keep role and content
            forall|q: int|
                !old(mem).is_free(q) && !old(self).pt_spec().nodes().contains(q)
                    ==> #[trigger] page_same(*old(mem), *final(mem), q),
            final(mem).free_count() >= old(mem).free_count() - 3 * map_area.len_spec(),
            final(mem).base_spec() == old(mem).base_spec(),
            final(mem).win_len() == old(mem).win_len(),
    {
        let ghost m0 = *mem;
        let ghost s0 = *self;
        let ghost rt = old(self).root_spec();
        let ghost area0 = map_area;
        let mut map_area = map_area;
        map_area.map(&mut self.page_table, mem);
        let ghost m1 = *mem;
        proof {
            if map_area.map_type_spec() == MapType::Framed {
                assert forall|l: int| 0 <= l < map_area.len_spec() implies m0.is_free(
                    (#[trigger] map_area.frames_view()[l]).unwrap().ppn.0 as int,
                ) && map_area.frames_view()[l] is Some && m1.data_at(
                    map_area.frames_view()[l].unwrap().ppn.0 as int,
                ) == crate::phys_mem::zero_page() by {}
            }
            // older areas keep their mappings: their pages were mapped, so
            // they lie outside the new area's still-unmapped range
            assert forall|j: int, i: int|
                #![trigger s0.areas_view()[j].entry_ok(m1, rt, i)]
                0 <= j < s0.areas_view().len() && 0 <= i
                    < s0.areas_view()[j].len_spec() implies s0.areas_view()[j].entry_ok(
                m1,
                rt,
                i,
            ) by {
                let a = s0.areas_view()[j];
                assert(a.entry_ok(m0, rt, i));
                let v = (a.start_spec() + i) as u64;
                assert(!map_area.holds(v as int)) by {
                    if map_area.holds(v as int) {
                        assert(view_at(m0, rt, v) is Some);
                    }
                }
                assert(view_at(m1, rt, v) == view_at(m0, rt, v));
                if a.map_type_spec() == MapType::Framed {
                    let pp = a.frames_view()[i].unwrap().ppn.0 as int;
                    crate::phys_mem::lemma_page_roles(m0, pp);
                    if s0.pt_spec().nodes().contains(pp) {
                        assert(m0.is_table(pp));
                    }
                    assert(page_same(m0, m1, pp));
                }
            }
        }
        match data {
            Some(d) => {
                proof {
                    assert(map_area.map_type_spec() == MapType::Framed);
                }
                map_area.copy_data(&self.page_table, mem, d);
                proof {
                    assert forall|j: int, i: int|
                        #![trigger s0.areas_view()[j].entry_ok(*mem, rt, i)]
                        0 <= j < s0.areas_view().len() && 0 <= i
                            < s0.areas_view()[j].len_spec() implies s0.areas_view()[j].entry_ok(
                        *mem,
                        rt,
                        i,
                    ) by {
                        let a = s0.areas_view()[j];
                        assert(a.entry_ok(m1, rt, i));
                        let v = (a.start_spec() + i) as u64;
                        assert(view_at(*mem, rt, v) == view_at(m1, rt, v));
                        if a.map_type_spec() == MapType::Framed {
                            let pp = a.frames_view()[i].unwrap().ppn.0 as int;
                            // the copy touches only the fresh frames, which
                            // were free before and so differ from this one
                            assert forall|l: int|
                                0 <= l < map_area.len_spec() implies pp != (
                            #[trigger] map_area.frames_view()[l]).unwrap().ppn.0 by {
                                assert(a.entry_ok(m0, rt, i));
                                assert(m0.is_free(
                                    map_area.frames_view()[l].unwrap().ppn.0 as int,
                                ));
                                assert(!m0.is_free(pp));
                            }
                            assert(page_same(m1, *mem, pp));
                            assert(mem.is_free(pp) == m1.is_free(pp));
                        }
                    }
                }
            },
            None => {},
        }
        let ghost filled = map_area;
        proof {
            assert forall|q: int|
                !m0.is_free(q) && !s0.pt_spec().nodes().contains(q) implies #[trigger] page_same(
                m0,
                *mem,
                q,
            ) by {
                assert(page_same(m0, m1, q));
                if data is Some {
                    assert forall|l: int|
                        0 <= l < map_area.len_spec() implies q != (
                    #[trigger] map_area.frames_view()[l]).unwrap().ppn.0 by {
                        assert(m0.is_free(map_area.frames_view()[l].unwrap().ppn.0 as int));
                    }
                    assert(page_same(m1, *mem, q));
                }
            }
            // range disjointness of the new area against the old ones
            assert forall|j: int, v: int|
                0 <= j < s0.areas_view().len() && (#[trigger] s0.areas_view()[j].holds(v))
                    implies !filled.holds(v) by {
                let a = s0.areas_view()[j];
                let i = v - a.start_spec();
                assert(a.entry_ok(m0, rt, i));
                if filled.holds(v) {
                    assert(view_at(m0, rt, ((a.start_spec() + i) as u64)) is Some);
                }
            }
            // frame disjointness of the new area against the old ones
            assert forall|j: int, q: int|
                0 <= j < s0.areas_view().len() && (#[trigger] s0.areas_view()[j].owns_frame(q))
                    implies !filled.owns_frame(q) by {
                let a = s0.areas_view()[j];
                if filled.owns_frame(q) {
                    let i = choose|i: int|
                        0 <= i < a.frames_view().len() && (#[trigger] a.frames_view()[i]) is Some
                            && a.frames_view()[i].unwrap().ppn.0 == q;
                    let l = choose|l: int|
                        0 <= l < filled.frames_view().len() && (#[trigger] filled.frames_view()[l])
                            is Some && filled.frames_view()[l].unwrap().ppn.0 == q;
                    assert(a.entry_ok(m0, rt, i));
                    if map_area.map_type_spec() == MapType::Framed {
                        assert(m0.is_free(map_area.frames_view()[l].unwrap().ppn.0 as int));
                        if a.map_type_spec() == MapType::Framed {
                            assert(!m0.is_free(q));
                        }
                    } else {
                        assert(map_area.map_type_spec() == area0.map_type_spec());
                        assert(area0.map_type_spec() == MapType::Identical);
                        assert(map_area.frames_view() == area0.frames_view());
                        assert(area0.frames_view()[l] is None);
                    }
                }
            }
        }
        self.areas.push(map_area);
        proof {
            let s1 = *self;
            assert(s1.areas_view() =~= s0.areas_view().push(filled));
            assert(s1.areas_view().last() == filled);
            if data is Some {
                let d = data.unwrap()@;
                assert forall|i: int, k: int|
                    #![trigger mem.data_at(filled.frames_view()[i].unwrap().ppn.0 as int)[k]]
                    0 <= i < filled.len_spec() && 0 <= k < 4096 implies mem.data_at(
                    filled.frames_view()[i].unwrap().ppn.0 as int,
                )[k] == if i * 4096 + k < d.len() {
                    d[i * 4096 + k]
                } else {
                    0
                } by {
                    assert(filled.map_type_spec() == MapType::Framed);
                    let pp = filled.frames_view()[i].unwrap().ppn.0 as int;
                    assert(m1.data_at(pp) == crate::phys_mem::zero_page());
                    if !(i * 4096 + k < d.len()) {
                        assert(mem.data_at(pp)[k] == m1.data_at(pp)[k]);
                        assert(m1.data_at(pp)[k] == 0);
                    }
                }
            } else if filled.map_type_spec() == MapType::Framed {
                assert forall|i: int, k: int|
                    #![trigger mem.data_at(filled.frames_view()[i].unwrap().ppn.0 as int)[k]]
                    0 <= i < filled.len_spec() && 0 <= k < 4096 implies mem.data_at(
                    filled.frames_view()[i].unwrap().ppn.0 as int,
                )[k] == 0 by {
                    let pp = filled.frames_view()[i].unwrap().ppn.0 as int;
                    assert(mem.data_at(pp) == crate::phys_mem::zero_page());
                }
            }
        }
    }


    /// Whether `vr` overlaps some recorded area.
    fn overlaps_any(&self, vr: VPNRange) -> (r: bool)
        ensures
            r == exists|j: int|
                0 <= j < self.areas_view().len() && (#[trigger] self.areas_view()[j]).range_spec().spec_overlaps(
                    vr,
                ),
    {
        let mut j: usize = 0;
        let n = self.areas.len();
        while j < n
            invariant
                j <= n,
                n == self.areas_view().len(),
                forall|k: int|
                    0 <= k < j ==> !(#[trigger] self.areas_view()[k]).range_spec().spec_overlaps(
                        vr,
                    ),
            decreases n - j,
        {
            if self.areas[j].overlaps(vr) {
                proof {
                    assert(self.areas_view()[j as int].range_spec().spec_overlaps(vr));
                }
                return true;
            }
            j = j + 1;
        }
        false
    }

    /// The mmap work: rejects an out-of-range length, a range that
    /// collides with a recorded area or any other mapped page, or one the
    /// allocator cannot back; otherwise maps the range framed with `port`
    /// and records it. Returns 0 on success and -1 otherwise.
    #[verifier::loop_isolation(false)]
    pub fn map_create(&mut self, mem: &mut PhysMem, start: VirtAddr, len: u64, port: MapPermission) -> (r:
        isize)
        requires
            old(self).inv(*old(mem)),
            MapPermission::spec_valid_bits(port.bits),
        ensures
            final(self).inv(*final(mem)),
            final(self).root_spec() == old(self).root_spec(),
            r == 0 || r == -1,
            ({
                let lo = spec_floor(start.0);
                let hi = spec_ceil((start.0 + len) as u64);
                r == 0 <==> {
                    &&& start.0 + len <= u64::MAX
                    &&& hi <= 0x800_0000
                    &&& !(exists|j: int|
                        0 <= j < old(self).areas_view().len() && {
                            let a = #[trigger] old(self).areas_view()[j];
                            a.start_spec() < a.end_spec() && lo < hi && a.start_spec() < hi && lo
                                < a.end_spec()
                        })
                    &&& old(mem).free_count() >= 3 * (hi - lo)
                    &&& forall|v: u64|
                        lo <= v < hi ==> #[trigger] view_at(
                            *old(mem),
                            old(self).root_spec(),
                            v,
                        ) is None
                }
            }),
            r == -1 ==> *final(self) == *old(self) && *final(mem) == *old(mem),
            r == 0 ==> {
                let lo = spec_floor(start.0);
                let hi = spec_ceil((start.0 + len) as u64);
                &&& final(self).areas_view().len() == old(self).areas_view().len() + 1
                &&& final(self).areas_view().last().start_spec() == lo
                &&& final(self).areas_view().last().end_spec() == hi
                &&& final(self).areas_view().last().map_type_spec() == MapType::Framed
                &&& final(self).areas_view().last().perm_spec() == port.bits
                &&& forall|v2: u64|
                    v2 < 0x800_0000 && !(lo <= v2 < hi) ==> #[trigger] view_at(
                        *final(mem),
                        old(self).root_spec(),
                        v2,
                    ) == view_at(*old(mem), old(self).root_spec(), v2)
            },
    {
        let ghost m0 = *mem;
        let ghost s0 = *self;
        let ghost rt = old(self).root_spec();
        if len > u64::MAX - start.0 {
            return -1;
        }
        let lo = start.floor();
        let hi = VirtAddr(start.0 + len).ceil();
        if hi.0 > 0x800_0000 {
            return -1;
        }
        let vr = VPNRange::new(lo, hi);
        if self.overlaps_any(vr) {
            proof {
                let j = choose|j: int|
                    0 <= j < self.areas_view().len()
                        && (#[trigger] self.areas_view()[j]).range_spec().spec_overlaps(vr);
                let a = self.areas_view()[j];
                assert(a.start_spec() < a.end_spec() && vr.start() < vr.end() && a.start_spec()
                    < vr.end() && vr.start() < a.end_spec());
            }
            return -1;
        }
        let need = 3 * (hi.0 - lo.0);
        if !mem.has_free(need) {
            return -1;
        }
        // nothing else may already sit in the range: the recorded areas
        // were ruled out above, and fixed pages such as the trampoline
        // are caught here
        let mut v: u64 = lo.0;
        while v < hi.0
            invariant
                lo.0 <= v <= hi.0,
                forall|v2: u64| lo.0 <= v2 < v ==> #[trigger] view_at(m0, rt, v2) is None,
            decreases hi.0 - v,
        {
            let mapped = match self.translate(mem, VirtPageNum(v)) {
                Some(e) => e.is_valid(),
                None => false,
            };
            if mapped {
                proof {
                    assert(view_at(m0, rt, v) is Some);
                }
                return -1;
            }
            v = v + 1;
        }
        let area = MapArea::new_by_vpn(vr, MapType::Framed, port);
        self.push(mem, area, None);
        0
    }

    /// The munmap work: succeeds only when some recorded area's range
    /// equals `[floor(start), ceil(start + len))` exactly; that area is
    /// unmapped and dropped. Returns 0 on success and -1 otherwise.
    #[verifier::rlimit(100)]
    #[verifier::loop_isolation(false)]
    pub fn munmap(&mut self, mem: &mut PhysMem, start: VirtAddr, len: u64) -> (r: isize)
        requires
            old(self).inv(*old(mem)),
        ensures
            final(self).inv(*final(mem)),
            final(self).root_spec() == old(self).root_spec(),
            r == 0 || r == -1,
            ({
                let lo = spec_floor(start.0);
                let hi = spec_ceil((start.0 + len) as u64);
                r == 0 <==> start.0 + len <= u64::MAX && exists|j: int|
                    0 <= j < old(self).areas_view().len() && (#[trigger] old(self).areas_view()[j]).start_spec()
                        == lo && old(self).areas_view()[j].end_spec() == hi
            }),
            r == -1 ==> *final(self) == *old(self) && *final(mem) == *old(mem),
            r == 0 ==> {
                let lo = spec_floor(start.0);
                let hi = spec_ceil((start.0 + len) as u64);
                &&& final(self).areas_view().len() == old(self).areas_view().len() - 1
                &&& forall|v: u64|
                    lo <= v < hi ==> #[trigger] view_at(
                        *final(mem),
                        old(self).root_spec(),
                        v,
                    ) is None
                &&& forall|v2: u64|
                    v2 < 0x800_0000 && !(lo <= v2 < hi) ==> #[trigger] view_at(
                        *final(mem),
                        old(self).root_spec(),
                        v2,
                    ) == view_at(*old(mem), old(self).root_spec(), v2)
                // the dropped area's frames go back to the allocator;
                // nothing else changes hands
                &&& exists|j: int|
                    0 <= j < old(self).areas_view().len() && (#[trigger] old(self).areas_view()[j]).start_spec()
                        == lo && old(self).areas_view()[j].end_spec() == hi && dropped_area_freed(
                        old(self).areas_view()[j],
                        *old(mem),
                        *final(mem),
                    )
            },
    {
        let ghost m0 = *mem;
        let ghost s0 = *self;
        let ghost rt = old(self).root_spec();
        if len > u64::MAX - start.0 {
            return -1;
        }
        let lo = start.floor();
        let hi = VirtAddr(start.0 + len).ceil();
        let vr = VPNRange::new(lo, hi);
        let n = self.areas.len();
        let mut j: usize = 0;
        while j < n
            invariant
                j <= n,
                n == self.areas_view().len(),
                *self == s0,
                *mem == m0,
                forall|k: int|
                    0 <= k < j ==> !((#[trigger] self.areas_view()[k]).start_spec() == vr.start()
                        && self.areas_view()[k].end_spec() == vr.end()),
            decreases n - j,
        {
            if self.areas[j].match_r(vr) {
                let mut area = self.areas.remove(j);
                proof {
                    assert(area == s0.areas_view()[j as int]);
                    assert(self.areas_view() =~= s0.areas_view().subrange(0, j as int) + s0.areas_view().subrange(
                        j as int + 1,
                        n as int,
                    ));
                    assert forall|i: int|
                        0 <= i < area.len_spec() implies #[trigger] area.entry_ok(m0, rt, i) by {
                        assert(s0.areas_view()[j as int].entry_ok(m0, rt, i));
                    }
                }
                let ghost area0 = area;
                area.unmap(&mut self.page_table, mem);
                proof {
                    let s1 = *self;
                    // every remaining area was disjoint from the removed
                    // one, in both pages and frames
                    assert forall|k2: int, i: int|
                        #![trigger s1.areas_view()[k2].entry_ok(*mem, rt, i)]
                        0 <= k2 < s1.areas_view().len() && 0 <= i
                            < s1.areas_view()[k2].len_spec() implies s1.areas_view()[k2].entry_ok(
                        *mem,
                        rt,
                        i,
                    ) by {
                        let k0 = if k2 < j as int {
                            k2
                        } else {
                            k2 + 1
                        };
                        let a = s0.areas_view()[k0];
                        assert(a == s1.areas_view()[k2]);
                        assert(a.entry_ok(m0, rt, i));
                        let v = (a.start_spec() + i) as u64;
                        assert(!area0.holds(v as int)) by {
                            if area0.holds(v as int) {
                                assert(s0.areas_view()[k0].holds(v as int));
                                assert(s0.areas_view()[j as int].holds(v as int));
                            }
                        }
                        assert(view_at(*mem, rt, v) == view_at(m0, rt, v));
                        if a.map_type_spec() == MapType::Framed {
                            let pp = a.frames_view()[i].unwrap().ppn.0 as int;
                            crate::phys_mem::lemma_page_roles(m0, pp);
                            if s0.pt_spec().nodes().contains(pp) {
                                assert(m0.is_table(pp));
                            }
                            assert(page_same(m0, *mem, pp));
                            assert(a.owns_frame(pp));
                            assert(!area0.owns_frame(pp)) by {
                                if area0.owns_frame(pp) {
                                    assert(s0.areas_view()[k0].owns_frame(pp));
                                    assert(s0.areas_view()[j as int].owns_frame(pp));
                                }
                            }
                            assert(mem.is_free(pp) == m0.is_free(pp));
                        }
                    }
                    assert forall|v: u64| vr.start() <= v < vr.end() implies #[trigger] view_at(
                        *mem,
                        rt,
                        v,
                    ) is None by {
                        assert(area0.holds(v as int));
                    }
                    assert(s0.areas_view()[j as int] == area0);
                }
                return 0;
            }
            j = j + 1;
        }
        -1
    }


    /// Canonical page number of the task's trap-context page: the slot
    /// just below the trampoline.
    pub open spec fn trap_cx_vpn() -> u64 {
        0x7FF_FFFE
    }

    /// Builds a user address space from a parsed ELF image: the loadable
    /// segments (framed, with `U`), a guard page, the user stack, and the
    /// trap-context page; the trampoline is mapped outside the areas.
    /// Returns the space, the user stack top and the entry point, or
    /// `None` when the image is unusable or memory runs out.
    #[verifier::rlimit(100)]
    #[verifier::loop_isolation(false)]
    pub fn from_elf_image(mem: &mut PhysMem, img: &ElfImage, strampoline: PhysPageNum) -> (r:
        Option<(MemorySet, u64, u64)>)
        requires
            old(mem).wf(),
            strampoline.0 < 0x1000_0000_0000u64,
        ensures
            final(mem).wf(),
            final(mem).base_spec() == old(mem).base_spec(),
            final(mem).win_len() == old(mem).win_len(),
            r is Some ==> img_wf(img@.segments),
            // enough frames force success: root and trampoline nodes,
            // three per segment page, the two stack pages and the trap page
            img_wf(img@.segments) && old(mem).free_count() >= 14 + img_need(
                img@.segments,
                img@.segments.len() as int,
            ) ==> r is Some,
            r is Some ==> {
                let ms = r.unwrap().0;
                let segs = img@.segments;
                let base = if segs.len() == 0 {
                    0
                } else {
                    spec_ceil((segs.last().start_va + segs.last().mem_size) as u64) as int
                };
                &&& ms.inv(*final(mem))
                &&& r.unwrap().2 == img.entry
                &&& ms.areas_view().len() == segs.len() + 2
                &&& forall|k: int|
                    0 <= k < segs.len() ==> {
                        let a = #[trigger] ms.areas_view()[k];
                        &&& a.start_spec() == spec_floor(segs[k].start_va)
                        &&& a.end_spec() == spec_ceil((segs[k].start_va + segs[k].mem_size)
                            as u64)
                        &&& a.map_type_spec() == MapType::Framed
                        &&& a.perm_spec() == seg_perm_bits(segs[k])
                    }
                &&& ms.areas_view()[segs.len() as int].start_spec() == base + 1
                &&& ms.areas_view()[segs.len() as int].end_spec() == base + 3
                &&& ms.areas_view()[segs.len() as int].map_type_spec() == MapType::Framed
                &&& ms.areas_view()[segs.len() as int].perm_spec() == ((MAP_PERM_R | MAP_PERM_W)
                    | MAP_PERM_U)
                &&& ms.areas_view().last().start_spec() == MemorySet::trap_cx_vpn()
                &&& ms.areas_view().last().end_spec() == MemorySet::trap_cx_vpn() + 1
                &&& ms.areas_view().last().map_type_spec() == MapType::Framed
                &&& ms.areas_view().last().perm_spec() == (MAP_PERM_R | MAP_PERM_W)
                &&& r.unwrap().1 == (base + 3) * 4096
                // each segment area holds its file bytes, then zeros
                &&& forall|k: int, j: int, b: int|
                    #![trigger final(mem).data_at(ms.areas_view()[k].frames_view()[j].unwrap().ppn.0 as int)[b]]
                    0 <= k < segs.len() && 0 <= j < ms.areas_view()[k].len_spec() && 0 <= b < 4096
                        ==> final(mem).data_at(
                        ms.areas_view()[k].frames_view()[j].unwrap().ppn.0 as int,
                    )[b] == if j * 4096 + b < segs[k].data.len() {
                        segs[k].data[j * 4096 + b]
                    } else {
                        0
                    }
                &&& view_at(*final(mem), ms.root_spec(), MemorySet::trap_cx_vpn()) is Some
                &&& ({
                    let t = view_at(*final(mem), ms.root_spec(), TRAMPOLINE_VPN);
                    t is Some && t.unwrap().spec_ppn() == strampoline.0
                })
            },
    {
        let ghost m0 = *mem;
        let ghost segs = img@.segments;
        let ghost total = 14 + img_need(segs, segs.len() as int);
        proof {
            if img_wf(segs) {
                lemma_img_need_mono(segs, segs.len() as int);
            }
        }
        if !mem.has_free(3) {
            return None;
        }
        let mut ms = MemorySet::new_bare(mem);
        if !mem.has_free(2) {
            return None;
        }
        ms.map_trampoline(mem, strampoline);
        let mut max_end_vpn: u64 = 0;
        let n = img.segments.len();
        let mut i: usize = 0;
        while i < n
            invariant
                i <= n,
                n == segs.len(),
                segs == img.segments@.map(|q: int, sg: crate::elf::ElfSegment| sg@),
                ms.inv(*mem),
                mem.wf(),
                mem.base_spec() == old(mem).base_spec(),
                mem.win_len() == old(mem).win_len(),
                max_end_vpn < 0x700_0000,
                forall|v: u64|
                    max_end_vpn <= v < TRAMPOLINE_VPN ==> #[trigger] view_at(
                        *mem,
                        ms.root_spec(),
                        v,
                    ) is None,
                ({
                    let t = view_at(*mem, ms.root_spec(), TRAMPOLINE_VPN);
                    t is Some && t.unwrap().spec_ppn() == strampoline.0
                }),
                i == 0 ==> max_end_vpn == 0,
                i > 0 ==> max_end_vpn == spec_ceil((segs[i - 1].start_va + segs[i - 1].mem_size)
                    as u64),
                ms.areas_view().len() == i,
                forall|k: int|
                    0 <= k < i ==> {
                        let a = #[trigger] ms.areas_view()[k];
                        &&& a.start_spec() == spec_floor(segs[k].start_va)
                        &&& a.end_spec() == spec_ceil((segs[k].start_va + segs[k].mem_size)
                            as u64)
                        &&& a.map_type_spec() == MapType::Framed
                        &&& a.perm_spec() == seg_perm_bits(segs[k])
                    },
                forall|k: int|
                    0 <= k < i ==> {
                        let sg = #[trigger] segs[k];
                        let slo = spec_floor(sg.start_va);
                        let shi = spec_ceil((sg.start_va + sg.mem_size) as u64);
                        &&& sg.start_va + sg.mem_size <= u64::MAX
                        &&& slo >= (if k == 0 {
                            0
                        } else {
                            spec_ceil((segs[k - 1].start_va + segs[k - 1].mem_size) as u64) as int
                        })
                        &&& shi >= slo
                        &&& shi < 0x700_0000
                        &&& sg.data.len() <= (shi - slo) * 4096
                    },
                forall|k: int, j: int, b: int|
                    #![trigger mem.data_at(ms.areas_view()[k].frames_view()[j].unwrap().ppn.0 as int)[b]]
                    0 <= k < i && 0 <= j < ms.areas_view()[k].len_spec() && 0 <= b < 4096
                        ==> mem.data_at(ms.areas_view()[k].frames_view()[j].unwrap().ppn.0 as int)[b]
                        == if j * 4096 + b < segs[k].data.len() {
                        segs[k].data[j * 4096 + b]
                    } else {
                        0
                    },
                mem.free_count() >= m0.free_count() - 5 - img_need(segs, i as int),
            decreases n - i,
        {
            let seg = &img.segments[i];
            proof {
                assert(seg@ == segs[i as int]);
            }
            if seg.start_va > u64::MAX - seg.mem_size {
                proof {
                    assert(!img_wf(segs));
                }
                return None;
            }
            let start_va = VirtAddr(seg.start_va);
            let end_va = VirtAddr(seg.start_va + seg.mem_size);
            let lo = start_va.floor();
            let hi = end_va.ceil();
            if lo.0 < max_end_vpn || hi.0 < lo.0 || hi.0 >= 0x700_0000 {
                proof {
                    assert(!img_wf(segs));
                }
                return None;
            }
            if seg.data.len() as u64 > (hi.0 - lo.0) * 4096 {
                proof {
                    assert(seg.data@.len() > (hi.0 - lo.0) * 4096);
                    assert(!img_wf(segs));
                }
                return None;
            }
            if !mem.has_free(3 * (hi.0 - lo.0)) {
                proof {
                    if img_wf(segs) && m0.free_count() >= total {
                        lemma_img_need_mono(segs, segs.len() as int);
                        assert(img_need(segs, i as int + 1) == img_need(segs, i as int) + 3 * (
                        spec_ceil((segs[i as int].start_va + segs[i as int].mem_size) as u64)
                            - spec_floor(segs[i as int].start_va)));
                        assert(img_need(segs, i as int + 1) <= img_need(segs, segs.len() as int));
                        assert(mem.free_count() >= 3 * (hi.0 - lo.0));
                    }
                }
                return None;
            }
            let mut bits: u8 = MAP_PERM_U;
            if seg.readable {
                bits = bits | MAP_PERM_R;
            }
            if seg.writable {
                bits = bits | MAP_PERM_W;
            }
            if seg.executable {
                bits = bits | MAP_PERM_X;
            }
            proof {
                assert(forall|b: u8| b & 0xE1 == 0 ==> (b | 2) & 0xE1 == 0 && (b | 4) & 0xE1 == 0
                    && (b | 8) & 0xE1 == 0) by (bit_vector);
                assert(16u8 & 0xE1 == 0) by (bit_vector);
            }
            proof {
                assert(forall|b: u8| #[trigger] (b | 0) == b) by (bit_vector);
                assert(bits == seg_perm_bits(segs[i as int]));
            }
            let area = MapArea::new(start_va, end_va, MapType::Framed, MapPermission { bits });
            let ghost mpre = *mem;
            let ghost spre = ms;
            ms.push(mem, area, Some(seg.data.as_slice()));
            proof {
                assert forall|v: u64|
                    hi.0 <= v < TRAMPOLINE_VPN implies #[trigger] view_at(
                    *mem,
                    ms.root_spec(),
                    v,
                ) is None by {
                    assert(view_at(*mem, ms.root_spec(), v) == view_at(mpre, ms.root_spec(), v));
                }
                assert(view_at(*mem, ms.root_spec(), TRAMPOLINE_VPN) == view_at(
                    mpre,
                    ms.root_spec(),
                    TRAMPOLINE_VPN,
                ));
                assert forall|k: int| 0 <= k < i + 1 implies {
                    let a = #[trigger] ms.areas_view()[k];
                    &&& a.start_spec() == spec_floor(segs[k].start_va)
                    &&& a.end_spec() == spec_ceil((segs[k].start_va + segs[k].mem_size) as u64)
                    &&& a.map_type_spec() == MapType::Framed
                    &&& a.perm_spec() == seg_perm_bits(segs[k])
                } by {
                    if k < i {
                        assert(ms.areas_view()[k] == spre.areas_view()[k]);
                    }
                }
                assert forall|k: int, j: int, b: int|
                    #![trigger mem.data_at(ms.areas_view()[k].frames_view()[j].unwrap().ppn.0 as int)[b]]
                    0 <= k < i + 1 && 0 <= j < ms.areas_view()[k].len_spec() && 0 <= b
                        < 4096 implies mem.data_at(
                    ms.areas_view()[k].frames_view()[j].unwrap().ppn.0 as int,
                )[b] == (if j * 4096 + b < segs[k].data.len() {
                    segs[k].data[j * 4096 + b]
                } else {
                    0
                }) by {
                    if k < i {
                        assert(ms.areas_view()[k] == spre.areas_view()[k]);
                        let a = spre.areas_view()[k];
                        let pp = a.frames_view()[j].unwrap().ppn.0 as int;
                        assert(a.entry_ok(mpre, spre.root_spec(), j));
                        assert(mpre.data_at(pp)[b] == (if j * 4096 + b < segs[k].data.len() {
                            segs[k].data[j * 4096 + b]
                        } else {
                            0
                        }));
                        crate::phys_mem::lemma_page_roles(mpre, pp);
                        if spre.pt_spec().nodes().contains(pp) {
                            assert(mpre.is_table(pp));
                        }
                        assert(page_same(mpre, *mem, pp));
                    } else {
                        assert(ms.areas_view()[k] == ms.areas_view().last());
                        assert(seg.data@ == segs[k].data);
                    }
                }
            }
            max_end_vpn = hi.0;
            i = i + 1;
        }
        // one guard page, then the user stack
        let user_stack_bottom_vpn = max_end_vpn + 1;
        let user_stack_top_vpn = user_stack_bottom_vpn + USER_STACK_SIZE / PAGE_SIZE;
        if !mem.has_free(3 * (USER_STACK_SIZE / PAGE_SIZE)) {
            proof {
                if img_wf(segs) && m0.free_count() >= total {
                    lemma_img_need_mono(segs, segs.len() as int);
                }
            }
            return None;
        }
        let stack_range = VPNRange::new(
            VirtPageNum(user_stack_bottom_vpn),
            VirtPageNum(user_stack_top_vpn),
        );
        proof {
            assert((2u8 | 4) & 0xE1 == 0 && ((2u8 | 4) | 16) & 0xE1 == 0 && (2u8 | 4) < 256)
                by (bit_vector);
        }
        let stack_area = MapArea::new_by_vpn(
            stack_range,
            MapType::Framed,
            MapPermission { bits: (MAP_PERM_R | MAP_PERM_W) | MAP_PERM_U },
        );
        let ghost m_s = *mem;
        let ghost s_s = ms;
        ms.push(mem, stack_area, None);
        proof {
            assert forall|v: u64|
                user_stack_top_vpn <= v < TRAMPOLINE_VPN implies #[trigger] view_at(
                *mem,
                ms.root_spec(),
                v,
            ) is None by {
                assert(view_at(*mem, ms.root_spec(), v) == view_at(m_s, ms.root_spec(), v));
            }
            assert forall|k: int, j: int, b: int|
                #![trigger mem.data_at(ms.areas_view()[k].frames_view()[j].unwrap().ppn.0 as int)[b]]
                0 <= k < segs.len() && 0 <= j < ms.areas_view()[k].len_spec() && 0 <= b
                    < 4096 implies mem.data_at(
                ms.areas_view()[k].frames_view()[j].unwrap().ppn.0 as int,
            )[b] == (if j * 4096 + b < segs[k].data.len() {
                segs[k].data[j * 4096 + b]
            } else {
                0
            }) by {
                assert(ms.areas_view()[k] == s_s.areas_view()[k]);
                let a = s_s.areas_view()[k];
                let pp = a.frames_view()[j].unwrap().ppn.0 as int;
                assert(a.entry_ok(m_s, s_s.root_spec(), j));
                assert(m_s.data_at(pp)[b] == (if j * 4096 + b < segs[k].data.len() {
                    segs[k].data[j * 4096 + b]
                } else {
                    0
                }));
                crate::phys_mem::lemma_page_roles(m_s, pp);
                if s_s.pt_spec().nodes().contains(pp) {
                    assert(m_s.is_table(pp));
                }
                assert(page_same(m_s, *mem, pp));
            }
        }
        // the trap-context page, kernel-only
        if !mem.has_free(3) {
            proof {
                if img_wf(segs) && m0.free_count() >= total {
                    lemma_img_need_mono(segs, segs.len() as int);
                }
            }
            return None;
        }
        let trap_range = VPNRange::new(VirtPageNum(0x7FF_FFFE), VirtPageNum(0x7FF_FFFF));
        let trap_area = MapArea::new_by_vpn(
            trap_range,
            MapType::Framed,
            MapPermission { bits: MAP_PERM_R | MAP_PERM_W },
        );
        let ghost s_stack = ms;
        let ghost m_t = *mem;
        ms.push(mem, trap_area, None);
        proof {
            assert(ms.areas_view().last().entry_ok(*mem, ms.root_spec(), 0));
            assert(img_wf(segs));
            assert forall|k: int, j: int, b: int|
                #![trigger mem.data_at(ms.areas_view()[k].frames_view()[j].unwrap().ppn.0 as int)[b]]
                0 <= k < segs.len() && 0 <= j < ms.areas_view()[k].len_spec() && 0 <= b
                    < 4096 implies mem.data_at(
                ms.areas_view()[k].frames_view()[j].unwrap().ppn.0 as int,
            )[b] == (if j * 4096 + b < segs[k].data.len() {
                segs[k].data[j * 4096 + b]
            } else {
                0
            }) by {
                assert(ms.areas_view()[k] == s_stack.areas_view()[k]);
                let a = s_stack.areas_view()[k];
                let pp = a.frames_view()[j].unwrap().ppn.0 as int;
                assert(a.entry_ok(m_t, s_stack.root_spec(), j));
                assert(m_t.data_at(pp)[b] == (if j * 4096 + b < segs[k].data.len() {
                    segs[k].data[j * 4096 + b]
                } else {
                    0
                }));
                crate::phys_mem::lemma_page_roles(m_t, pp);
                if s_stack.pt_spec().nodes().contains(pp) {
                    assert(m_t.is_table(pp));
                }
                assert(page_same(m_t, *mem, pp));
            }
            assert forall|k: int| 0 <= k < segs.len() implies {
                let a = #[trigger] ms.areas_view()[k];
                &&& a.start_spec() == spec_floor(segs[k].start_va)
                &&& a.end_spec() == spec_ceil((segs[k].start_va + segs[k].mem_size) as u64)
                &&& a.map_type_spec() == MapType::Framed
                &&& a.perm_spec() == seg_perm_bits(segs[k])
            } by {
                assert(ms.areas_view()[k] == s_stack.areas_view()[k]);
            }
            assert(ms.areas_view()[segs.len() as int] == s_stack.areas_view().last());
        }
        Some((ms, user_stack_top_vpn * PAGE_SIZE, img.entry))
    }

    /// Parses `elf_data` and builds the user space from it: bytes that
    /// do not parse yield `None`; a well-formed image with enough free
    /// frames always succeeds.
    pub fn from_elf(mem: &mut PhysMem, elf_data: &[u8], strampoline: PhysPageNum) -> (r: Option<
        (MemorySet, u64, u64),
    >)
        requires
            old(mem).wf(),
            strampoline.0 < 0x1000_0000_0000u64,
        ensures
            final(mem).wf(),
            crate::elf::elf_image_of(elf_data@) is None ==> r is None,
            ({
                let im = crate::elf::elf_image_of(elf_data@);
                im is Some && img_wf(im.unwrap().segments) && old(mem).free_count() >= 14
                    + img_need(im.unwrap().segments, im.unwrap().segments.len() as int) ==> r
                    is Some
            }),
            r is Some ==> {
                let im = crate::elf::elf_image_of(elf_data@).unwrap();
                let ms = r.unwrap().0;
                let base = if im.segments.len() == 0 {
                    0
                } else {
                    spec_ceil((im.segments.last().start_va + im.segments.last().mem_size) as u64)
                        as int
                };
                &&& crate::elf::elf_image_of(elf_data@) is Some
                &&& img_wf(im.segments)
                &&& r.unwrap().2 == im.entry
                &&& r.unwrap().1 == (base + 3) * 4096
                &&& ms.inv(*final(mem))
                &&& ms.areas_view().len() == im.segments.len() + 2
                &&& forall|k: int|
                    0 <= k < im.segments.len() ==> {
                        let a = #[trigger] ms.areas_view()[k];
                        &&& a.start_spec() == spec_floor(im.segments[k].start_va)
                        &&& a.end_spec() == spec_ceil(
                            (im.segments[k].start_va + im.segments[k].mem_size) as u64,
                        )
                        &&& a.map_type_spec() == MapType::Framed
                        &&& a.perm_spec() == seg_perm_bits(im.segments[k])
                    }
                // the user stack: one guard page above the last segment,
                // two pages, user read-write
                &&& ms.areas_view()[im.segments.len() as int].start_spec() == base + 1
                &&& ms.areas_view()[im.segments.len() as int].end_spec() == base + 3
                &&& ms.areas_view()[im.segments.len() as int].map_type_spec() == MapType::Framed
                &&& ms.areas_view()[im.segments.len() as int].perm_spec() == ((MAP_PERM_R
                    | MAP_PERM_W) | MAP_PERM_U)
                // the trap-context page: kernel-only read-write
                &&& ms.areas_view().last().start_spec() == MemorySet::trap_cx_vpn()
                &&& ms.areas_view().last().end_spec() == MemorySet::trap_cx_vpn() + 1
                &&& ms.areas_view().last().map_type_spec() == MapType::Framed
                &&& ms.areas_view().last().perm_spec() == (MAP_PERM_R | MAP_PERM_W)
                &&& forall|k: int, j: int, b: int|
                    #![trigger final(mem).data_at(ms.areas_view()[k].frames_view()[j].unwrap().ppn.0 as int)[b]]
                    0 <= k < im.segments.len() && 0 <= j < ms.areas_view()[k].len_spec() && 0 <= b
                        < 4096 ==> final(mem).data_at(
                        ms.areas_view()[k].frames_view()[j].unwrap().ppn.0 as int,
                    )[b] == (if j * 4096 + b < im.segments[k].data.len() {
                        im.segments[k].data[j * 4096 + b]
                    } else {
                        0
                    })
                &&& view_at(*final(mem), ms.root_spec(), MemorySet::trap_cx_vpn()) is Some
                &&& view_at(*final(mem), ms.root_spec(), TRAMPOLINE_VPN) is Some
            },
    {
        match crate::elf::parse_elf(elf_data) {
            Some(img) => MemorySet::from_elf_image(mem, &img, strampoline),
            None => None,
        }
    }


    /// Builds the kernel's own address space: the trampoline, then each
    /// given section identity-mapped with its permissions. Sections must
    /// come page-ordered; returns `None` when they do not or when frames
    /// run out.
    #[verifier::rlimit(100)]
    pub fn new_kernel(mem: &mut PhysMem, sections: &Vec<(u64, u64, u8)>, strampoline: PhysPageNum) -> (r:
        Option<MemorySet>)
        requires
            old(mem).wf(),
            strampoline.0 < 0x1000_0000_0000u64,
        ensures
            final(mem).wf(),
            r is Some ==> sections_wf(sections@),
            // enough frames force success: one root, up to two trampoline
            // nodes, and three per section page
            sections_wf(sections@) && old(mem).free_count() >= 5 + sections_need(
                sections@,
                sections@.len() as int,
            ) ==> r is Some,
            r is Some ==> {
                let ms = r.unwrap();
                &&& ms.inv(*final(mem))
                &&& ms.areas_view().len() == sections@.len()
                &&& forall|k: int|
                    0 <= k < sections@.len() ==> {
                        let a = #[trigger] ms.areas_view()[k];
                        &&& a.start_spec() == spec_floor(sections@[k].0)
                        &&& a.end_spec() == spec_ceil(sections@[k].1)
                        &&& a.map_type_spec() == MapType::Identical
                        &&& a.perm_spec() == sections@[k].2
                    }
                &&& ({
                    let t = view_at(*final(mem), ms.root_spec(), TRAMPOLINE_VPN);
                    t is Some && t.unwrap().spec_ppn() == strampoline.0
                })
            },
    {
        let ghost m0 = *mem;
        let ghost total = 5 + sections_need(sections@, sections@.len() as int);
        proof {
            if sections_wf(sections@) {
                lemma_sections_need_mono(sections@, sections@.len() as int);
            }
        }
        if !mem.has_free(3) {
            return None;
        }
        let mut ms = MemorySet::new_bare(mem);
        if !mem.has_free(2) {
            return None;
        }
        ms.map_trampoline(mem, strampoline);
        let mut next_free: u64 = 0;
        let n = sections.len();
        let mut i: usize = 0;
        while i < n
            invariant
                i <= n,
                n == sections@.len(),
                m0 == *old(mem),
                total == 5 + sections_need(sections@, sections@.len() as int),
                ms.inv(*mem),
                mem.wf(),
                mem.base_spec() == old(mem).base_spec(),
                mem.win_len() == old(mem).win_len(),
                next_free < 0x700_0000,
                forall|v: u64|
                    next_free <= v < TRAMPOLINE_VPN ==> #[trigger] view_at(
                        *mem,
                        ms.root_spec(),
                        v,
                    ) is None,
                ms.areas_view().len() == i,
                forall|k: int|
                    0 <= k < i ==> {
                        let a = #[trigger] ms.areas_view()[k];
                        &&& a.start_spec() == spec_floor(sections@[k].0)
                        &&& a.end_spec() == spec_ceil(sections@[k].1)
                        &&& a.map_type_spec() == MapType::Identical
                        &&& a.perm_spec() == sections@[k].2
                    },
                i == 0 ==> next_free == 0,
                i > 0 ==> next_free == spec_ceil(sections@[i - 1].1),
                forall|k: int|
                    0 <= k < i ==> {
                        let slo = spec_floor((#[trigger] sections@[k]).0);
                        let shi = spec_ceil(sections@[k].1);
                        &&& slo >= (if k == 0 {
                            0
                        } else {
                            spec_ceil(sections@[k - 1].1) as int
                        })
                        &&& shi >= slo
                        &&& shi < 0x700_0000
                        &&& sections@[k].2 & 0xE1 == 0
                    },
                ({
                    let t = view_at(*mem, ms.root_spec(), TRAMPOLINE_VPN);
                    t is Some && t.unwrap().spec_ppn() == strampoline.0
                }),
                mem.free_count() >= m0.free_count() - 5 - sections_need(sections@, i as int),
            decreases n - i,
        {
            let sec = sections[i];
            let start_va = VirtAddr(sec.0);
            let end_va = VirtAddr(sec.1);
            let lo = start_va.floor();
            let hi = end_va.ceil();
            if lo.0 < next_free || hi.0 < lo.0 || hi.0 >= 0x700_0000 {
                proof {
                    assert(!sections_wf(sections@));
                }
                return None;
            }
            if sec.2 & 0xE1 != 0 {
                proof {
                    assert(!sections_wf(sections@));
                }
                return None;
            }
            if !mem.has_free(3 * (hi.0 - lo.0)) {
                proof {
                    if sections_wf(sections@) && m0.free_count() >= total {
                        lemma_sections_need_mono(sections@, sections@.len() as int);
                        assert(sections_need(sections@, i as int + 1) == sections_need(
                            sections@,
                            i as int,
                        ) + 3 * (spec_ceil(sections@[i as int].1) - spec_floor(
                            sections@[i as int].0,
                        )));
                        assert(sections_need(sections@, i as int + 1) <= sections_need(
                            sections@,
                            sections@.len() as int,
                        ));
                        assert(mem.free_count() >= 3 * (hi.0 - lo.0));
                    }
                }
                return None;
            }
            let area = MapArea::new(start_va, end_va, MapType::Identical, MapPermission {
                bits: sec.2,
            });
            let ghost mpre = *mem;
            ms.push(mem, area, None);
            proof {
                assert forall|v: u64|
                    hi.0 <= v < TRAMPOLINE_VPN implies #[trigger] view_at(
                    *mem,
                    ms.root_spec(),
                    v,
                ) is None by {
                    assert(view_at(*mem, ms.root_spec(), v) == view_at(mpre, ms.root_spec(), v));
                }
                assert(view_at(*mem, ms.root_spec(), TRAMPOLINE_VPN) == view_at(
                    mpre,
                    ms.root_spec(),
                    TRAMPOLINE_VPN,
                ));
            }
            next_free = hi.0;
            i = i + 1;
        }
        proof {
            assert(sections_wf(sections@));
        }
        Some(ms)
    }

    /// Spot check of the kernel mapping: the middle of the text section
    /// is not writable, the middle of read-only data is not writable, and
    /// the middle of data is not executable.
    pub fn remap_test(&self, mem: &PhysMem, mid_text: VirtAddr, mid_rodata: VirtAddr, mid_data: VirtAddr) -> (r:
        bool)
        ensures
            r == ({
                let rt = self.root_spec();
                let et = view_at(*mem, rt, spec_floor(mid_text.0));
                let er = view_at(*mem, rt, spec_floor(mid_rodata.0));
                let ed = view_at(*mem, rt, spec_floor(mid_data.0));
                &&& et is Some && et.unwrap().spec_flags() & 4 == 0
                &&& er is Some && er.unwrap().spec_flags() & 4 == 0
                &&& ed is Some && ed.unwrap().spec_flags() & 8 == 0
            }),
    {
        let t = self.translate(mem, mid_text.floor());
        let ro = self.translate(mem, mid_rodata.floor());
        let d = self.translate(mem, mid_data.floor());
        let ok_t = match t {
            Some(e) => e.is_valid() && !e.writable(),
            None => false,
        };
        let ok_r = match ro {
            Some(e) => e.is_valid() && !e.writable(),
            None => false,
        };
        let ok_d = match d {
            Some(e) => e.is_valid() && !e.executable(),
            None => false,
        };
        ok_t && ok_r && ok_d
    }

    /// Allocates and maps a fresh framed region, as the kernel does for
    /// per-task kernel stacks.
    pub fn insert_framed_area(
        &mut self,
        mem: &mut PhysMem,
        start_va: VirtAddr,
        end_va: VirtAddr,
        permission: MapPermission,
    )
        requires
            old(self).inv(*old(mem)),
            spec_floor(start_va.0) <= spec_ceil(end_va.0),
            spec_ceil(end_va.0) <= 0x800_0000,
            MapPermission::spec_valid_bits(permission.bits),
            forall|v: u64|
                spec_floor(start_va.0) <= v < spec_ceil(end_va.0) ==> #[trigger] view_at(
                    *old(mem),
                    old(self).root_spec(),
                    v,
                ) is None,
            old(mem).free_count() >= 3 * (spec_ceil(end_va.0) - spec_floor(start_va.0)),
        ensures
            final(self).inv(*final(mem)),
            final(self).root_spec() == old(self).root_spec(),
            final(self).areas_view().len() == old(self).areas_view().len() + 1,
            ({
                let a = final(self).areas_view().last();
                &&& a.start_spec() == spec_floor(start_va.0)
                &&& a.end_spec() == spec_ceil(end_va.0)
                &&& a.map_type_spec() == MapType::Framed
                &&& a.perm_spec() == permission.bits
            }),
            // the fresh frames backing the region hold zeros
            forall|i: int, k: int|
                #![trigger final(mem).data_at(final(self).areas_view().last().frames_view()[i].unwrap().ppn.0 as int)[k]]
                0 <= i < spec_ceil(end_va.0) - spec_floor(start_va.0) && 0 <= k < 4096
                    ==> final(mem).data_at(
                    final(self).areas_view().last().frames_view()[i].unwrap().ppn.0 as int,
                )[k] == 0,
            forall|v2: u64|
                v2 < 0x800_0000 && !(spec_floor(start_va.0) <= v2 < spec_ceil(end_va.0))
                    ==> #[trigger] view_at(*final(mem), old(self).root_spec(), v2) == view_at(
                    *old(mem),
                    old(self).root_spec(),
                    v2,
                ),
            forall|q: int| !old(mem).is_free(q) ==> !final(mem).is_free(q),
            final(mem).free_count() >= old(mem).free_count() - 3 * (spec_ceil(end_va.0)
                - spec_floor(start_va.0)),
            final(mem).base_spec() == old(mem).base_spec(),
            final(mem).win_len() == old(mem).win_len(),
    {
        let area = MapArea::new(start_va, end_va, MapType::Framed, permission);
        self.push(mem, area, None);
    }
}

} // verus!
