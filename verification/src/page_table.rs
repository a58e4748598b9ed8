//! SV39 page-table entries, their flag bits, and the three-level walker.

use vstd::prelude::*;

use crate::address::{PhysPageNum, VirtAddr, VirtPageNum};
use crate::frame_allocator::FrameTracker;
use crate::phys_mem::{page_same, same_except, PhysMem};

verus! {

/// PTE flag bits, in their architectural positions.
pub const PTE_V: u8 = 1;

pub const PTE_R: u8 = 2;

pub const PTE_W: u8 = 4;

pub const PTE_X: u8 = 8;

pub const PTE_U: u8 = 16;

pub const PTE_G: u8 = 32;

pub const PTE_A: u8 = 64;

pub const PTE_D: u8 = 128;

/// The low eight bits of a page-table entry. Every bit pattern is a legal
/// flag set, so construction is total.
#[derive(Clone, Copy, PartialEq, Eq, Structural, Debug)]
pub struct PTEFlags {
    pub bits: u8,
}

impl PTEFlags {
    pub fn empty() -> (r: PTEFlags)
        ensures
            r.bits == 0,
    {
        PTEFlags { bits: 0 }
    }

    pub fn from_bits(bits: u8) -> (r: PTEFlags)
        ensures
            r.bits == bits,
    {
        PTEFlags { bits }
    }

    pub fn union(self, other: PTEFlags) -> (r: PTEFlags)
        ensures
            r.bits == self.bits | other.bits,
    {
        PTEFlags { bits: self.bits | other.bits }
    }
}

/// One 64-bit SV39 page-table entry: physical page number in bits 53..10,
/// flags in bits 7..0.
#[derive(Clone, Copy, PartialEq, Eq, Structural, Debug)]
pub struct PageTableEntry {
    pub bits: u64,
}

impl PageTableEntry {
    /// The 44-bit physical page number field.
    pub open spec fn spec_ppn(self) -> u64 {
        ((self.bits >> 10) & 0xFFF_FFFF_FFFFu64) as u64
    }

    /// The low eight flag bits.
    pub open spec fn spec_flags(self) -> u8 {
        (self.bits & 0xFF) as u8
    }

    /// Whether the V bit is set.
    pub open spec fn spec_valid(self) -> bool {
        self.bits & 1 == 1
    }

    /// Whether any of R/W/X is set: a valid entry with none of them is a
    /// pointer to the next level.
    pub open spec fn spec_rwx(self) -> u64 {
        self.bits & 0xE
    }

    pub fn new(ppn: PhysPageNum, flags: PTEFlags) -> (r: PageTableEntry)
        requires
            ppn.0 < 0x1000_0000_0000u64,
        ensures
            r.bits == (ppn.0 << 10) | (flags.bits as u64),
            r.spec_ppn() == ppn.0,
            r.spec_flags() == flags.bits,
            r.spec_valid() <==> flags.bits & 1 == 1,
            (r.spec_rwx() == 0) <==> (flags.bits & 0xE == 0),
    {
        let p = ppn.0;
        let f = flags.bits as u64;
        let bits = (p << 10) | f;
        proof {
            assert(p < 0x1000_0000_0000u64 && f < 256 ==> ((p << 10) | f) >> 10
                & 0xFFF_FFFF_FFFFu64 == p) by (bit_vector);
            assert(f < 256 ==> ((p << 10) | f) & 0xFF == f) by (bit_vector);
            assert(f < 256 ==> (((p << 10) | f) & 1 == 1 <==> f & 1 == 1)) by (bit_vector);
            assert(f < 256 ==> (((p << 10) | f) & 0xE == 0 <==> f & 0xE == 0)) by (bit_vector);
            let fb = flags.bits;
            assert(fb & 1 == 1 <==> (fb as u64) & 1 == 1) by (bit_vector);
            assert(fb & 0xE == 0 <==> (fb as u64) & 0xE == 0) by (bit_vector);
        }
        PageTableEntry { bits }
    }

    pub fn empty() -> (r: PageTableEntry)
        ensures
            r.bits == 0,
            !r.spec_valid(),
            r.spec_ppn() == 0,
            r.spec_flags() == 0,
    {
        proof {
            assert(0u64 & 1 == 0 && (0u64 >> 10) & 0xFFF_FFFF_FFFFu64 == 0 && 0u64 & 0xFF == 0)
                by (bit_vector);
        }
        PageTableEntry { bits: 0 }
    }

    pub fn ppn(&self) -> (r: PhysPageNum)
        ensures
            r.0 == self.spec_ppn(),
            r.0 < 0x1000_0000_0000u64,
    {
        let b = self.bits;
        proof {
            assert((b >> 10) & 0xFFF_FFFF_FFFFu64 < 0x1000_0000_0000u64) by (bit_vector);
        }
        PhysPageNum((b >> 10) & 0xFFF_FFFF_FFFF)
    }

    pub fn flags(&self) -> (r: PTEFlags)
        ensures
            r.bits == self.spec_flags(),
    {
        let b = self.bits;
        proof {
            assert(b & 0xFF < 256) by (bit_vector);
        }
        PTEFlags { bits: (b & 0xFF) as u8 }
    }

    pub fn is_valid(&self) -> (r: bool)
        ensures
            r == self.spec_valid(),
    {
        let b = self.bits;
        proof {
            assert((b & 1 == 1) <==> (b & 0xFF) as u8 & 1u8 == 1) by (bit_vector);
        }
        (self.bits & 1) == 1
    }

    pub fn readable(&self) -> (r: bool)
        ensures
            r == (self.spec_flags() & PTE_R != 0),
    {
        let b = self.bits;
        proof {
            assert((b & 2 != 0) <==> ((b & 0xFF) as u8) & 2 != 0) by (bit_vector);
        }
        (self.bits & 2) != 0
    }

    pub fn writable(&self) -> (r: bool)
        ensures
            r == (self.spec_flags() & PTE_W != 0),
    {
        let b = self.bits;
        proof {
            assert((b & 4 != 0) <==> ((b & 0xFF) as u8) & 4 != 0) by (bit_vector);
        }
        (self.bits & 4) != 0
    }

    pub fn executable(&self) -> (r: bool)
        ensures
            r == (self.spec_flags() & PTE_X != 0),
    {
        let b = self.bits;
        proof {
            assert((b & 8 != 0) <==> ((b & 0xFF) as u8) & 8 != 0) by (bit_vector);
        }
        (self.bits & 8) != 0
    }
}


/// Root-level SV39 walk index of `vpn`.
pub open spec fn i0_spec(vpn: u64) -> int {
    ((vpn >> 18) & 511) as int
}

/// Middle-level SV39 walk index of `vpn`.
pub open spec fn i1_spec(vpn: u64) -> int {
    ((vpn >> 9) & 511) as int
}

/// Leaf-level SV39 walk index of `vpn`.
pub open spec fn i2_spec(vpn: u64) -> int {
    (vpn & 511) as int
}

/// Two page numbers select the same leaf slot of a three-level walk.
pub open spec fn same_slot(a: u64, b: u64) -> bool {
    i0_spec(a) == i0_spec(b) && i1_spec(a) == i1_spec(b) && i2_spec(a) == i2_spec(b)
}

pub proof fn lemma_idx_bounds(vpn: u64)
    ensures
        0 <= i0_spec(vpn) < 512,
        0 <= i1_spec(vpn) < 512,
        0 <= i2_spec(vpn) < 512,
{
    assert((vpn >> 18) & 511 < 512 && (vpn >> 9) & 511 < 512 && vpn & 511 < 512) by (bit_vector);
}

pub proof fn lemma_zero_pte()
    ensures
        !(PageTableEntry { bits: 0u64 }).spec_valid(),
        (PageTableEntry { bits: 0u64 }).spec_rwx() == 0,
        (PageTableEntry { bits: 0u64 }).spec_ppn() == 0,
        (PageTableEntry { bits: 0u64 }).spec_flags() == 0,
{
    assert(0u64 & 1 == 0 && 0u64 & 0xE == 0 && (0u64 >> 10) & 0xFFF_FFFF_FFFFu64 == 0 && 0u64
        & 0xFF == 0) by (bit_vector);
}

/// The read-only three-level walk from `root`: `None` when an inner level
/// is missing, otherwise the leaf entry, valid or not.
pub open spec fn walk(mem: PhysMem, root: int, vpn: u64) -> Option<PageTableEntry> {
    let e0 = mem.entry_at(root, i0_spec(vpn));
    if !e0.spec_valid() {
        None
    } else {
        let e1 = mem.entry_at(e0.spec_ppn() as int, i1_spec(vpn));
        if !e1.spec_valid() {
            None
        } else {
            Some(mem.entry_at(e1.spec_ppn() as int, i2_spec(vpn)))
        }
    }
}

/// The mapping the hardware would honour: the leaf entry when the walk
/// reaches one and its V bit is set.
pub open spec fn view_at(mem: PhysMem, root: int, vpn: u64) -> Option<PageTableEntry> {
    match walk(mem, root, vpn) {
        Some(e) => if e.spec_valid() {
            Some(e)
        } else {
            None
        },
        None => None,
    }
}

/// An SV39 page table: its fixed root node plus every node frame it has
/// allocated. The ghost `pos` map remembers the unique position of each
/// node in the three-level tree, which is what makes writes local: no node
/// is reachable along two different paths.
pub struct PageTable {
    root_ppn: PhysPageNum,
    frames: Vec<FrameTracker>,
    pos: Ghost<Map<int, Seq<int>>>,
}

impl PageTable {
    pub closed spec fn root(self) -> int {
        self.root_ppn.0 as int
    }

    pub closed spec fn frames_view(self) -> Seq<FrameTracker> {
        self.frames@
    }

    /// Page numbers of the node frames this table owns.
    pub open spec fn nodes(self) -> Set<int> {
        Set::new(
            |p: int|
                exists|i: int|
                    0 <= i < self.frames_view().len() && (#[trigger] self.frames_view()[i]).ppn.0
                        as int == p,
        )
    }

    pub closed spec fn pos_map(self) -> Map<int, Seq<int>> {
        self.pos@
    }

    /// Node `p` really sits at its recorded position.
    pub open spec fn pos_ok(self, mem: PhysMem, p: int) -> bool {
        let path = self.pos_map()[p];
        if path.len() == 0 {
            p == self.root()
        } else if path.len() == 1 {
            let j = path[0];
            let e = mem.entry_at(self.root(), j);
            &&& 0 <= j < 512
            &&& p != self.root()
            &&& e.spec_valid()
            &&& e.spec_rwx() == 0
            &&& e.spec_ppn() as int == p
        } else if path.len() == 2 {
            let j = path[0];
            let k = path[1];
            let e0 = mem.entry_at(self.root(), j);
            let n1 = e0.spec_ppn() as int;
            let e1 = mem.entry_at(n1, k);
            &&& 0 <= j < 512
            &&& 0 <= k < 512
            &&& e0.spec_valid()
            &&& e0.spec_rwx() == 0
            &&& self.nodes().contains(n1)
            &&& self.pos_map()[n1] == seq![j]
            &&& n1 != p
            &&& p != self.root()
            &&& n1 != self.root()
            &&& e1.spec_valid()
            &&& e1.spec_rwx() == 0
            &&& e1.spec_ppn() as int == p
        } else {
            false
        }
    }

    /// The table is a well-formed tree inside well-formed memory: nodes are
    /// distinct owned table pages, each at exactly one position, and every
    /// valid entry of a non-leaf node is a pure pointer to another node.
    pub open spec fn inv(self, mem: PhysMem) -> bool {
        &&& mem.wf()
        &&& self.nodes().contains(self.root())
        &&& self.pos_map().dom() == self.nodes()
        &&& self.pos_map()[self.root()] == Seq::<int>::empty()
        &&& forall|i: int, j: int|
            0 <= i < j < self.frames_view().len() ==> (#[trigger] self.frames_view()[i]).ppn.0 != (
            #[trigger] self.frames_view()[j]).ppn.0
        &&& forall|p: int| #[trigger]
            self.nodes().contains(p) ==> mem.in_window(p) && mem.is_table(p) && !mem.is_free(p)
        &&& forall|p: int| #[trigger] self.nodes().contains(p) ==> self.pos_ok(mem, p)
        &&& forall|p: int, j: int|
            #![trigger self.nodes().contains(p), mem.entry_at(p, j)]
            self.nodes().contains(p) && self.pos_map()[p].len() <= 1 && 0 <= j < 512 && mem.entry_at(
                p,
                j,
            ).spec_valid() ==> {
                let e = mem.entry_at(p, j);
                &&& e.spec_rwx() == 0
                &&& self.nodes().contains(e.spec_ppn() as int)
                &&& self.pos_map()[e.spec_ppn() as int] == self.pos_map()[p].push(j)
                &&& e.spec_ppn() as int != p
            }
    }

    /// A fresh table: one newly allocated root node, every slot empty.
    pub fn new(mem: &mut PhysMem) -> (pt: PageTable)
        requires
            old(mem).wf(),
            old(mem).free_count() >= 1,
        ensures
            pt.inv(*final(mem)),
            forall|vpn: u64| #[trigger] walk(*final(mem), pt.root(), vpn) is None,
            forall|p: int| #[trigger] pt.nodes().contains(p) <==> p == pt.root(),
            old(mem).is_free(pt.root()),
            !final(mem).is_free(pt.root()),
            forall|q: int| q != pt.root() ==> final(mem).is_free(q) == old(mem).is_free(q),
            final(mem).free_count() == old(mem).free_count() - 1,
            same_except(*old(mem), *final(mem), pt.root()),
            final(mem).base_spec() == old(mem).base_spec(),
            final(mem).win_len() == old(mem).win_len(),
    {
        let t = match mem.frame_alloc() {
            Some(t) => t,
            None => {
                proof {
                    assert(false);
                }
                vstd::pervasive::unreached()
            },
        };
        let root_ppn = t.ppn;
        let ghost m1 = *mem;
        mem.make_table(root_ppn);
        let mut frames: Vec<FrameTracker> = Vec::new();
        frames.push(t);
        let pt = PageTable {
            root_ppn,
            frames,
            pos: Ghost(Map::empty().insert(root_ppn.0 as int, Seq::empty())),
        };
        proof {
            assert forall|p: int| #[trigger] pt.nodes().contains(p) <==> p == pt.root() by {
                if p == pt.root() {
                    assert(pt.frames_view()[0].ppn.0 as int == p);
                }
            }
            assert(pt.pos_map().dom() =~= pt.nodes());
            lemma_zero_pte();
            assert forall|vpn: u64| #[trigger] walk(*mem, pt.root(), vpn) is None by {
                lemma_idx_bounds(vpn);
                assert(mem.entry_at(pt.root(), i0_spec(vpn)).bits == 0);
            }
            assert forall|p: int| #[trigger] pt.nodes().contains(p) implies pt.pos_ok(*mem, p) by {
                assert(p == pt.root());
            }
            assert forall|q: int| q != pt.root() implies #[trigger] page_same(
                *old(mem),
                *mem,
                q,
            ) by {
                assert(page_same(*old(mem), m1, q));
                assert(page_same(m1, *mem, q));
            }
        }
        pt
    }

    /// A non-owning view of a foreign table, reconstructed from its `satp`
    /// token: the root page number is the token's low 44 bits.
    pub fn from_token(satp: u64) -> (pt: PageTable)
        ensures
            pt.root() == satp & 0xFFF_FFFF_FFFFu64,
            pt.frames_view().len() == 0,
    {
        PageTable {
            root_ppn: PhysPageNum(satp & 0xFFF_FFFF_FFFF),
            frames: Vec::new(),
            pos: Ghost(Map::empty()),
        }
    }

    /// The SV39 `satp` value selecting this table: mode 8 and the root page
    /// number.
    pub fn token(&self) -> (r: u64)
        requires
            self.root() < 0x1000_0000_0000,
        ensures
            r == (8u64 << 60) | (self.root() as u64),
            r & 0xFFF_FFFF_FFFFu64 == self.root(),
    {
        let root = self.root_ppn.0;
        proof {
            assert(root < 0x1000_0000_0000u64 ==> ((8u64 << 60) | root) & 0xFFF_FFFF_FFFFu64
                == root) by (bit_vector);
        }
        (8u64 << 60) | root
    }

    /// The read-only walk. Like the source of truth in hardware, the
    /// result distinguishes a missing inner node (`None`) from a leaf
    /// slot that exists: the slot's entry is returned even when invalid,
    /// and the second clause says which results the hardware honours.
    pub fn translate(&self, mem: &PhysMem, vpn: VirtPageNum) -> (r: Option<PageTableEntry>)
        ensures
            r == walk(*mem, self.root(), vpn.0),
            view_at(*mem, self.root(), vpn.0) == (match r {
                Some(e) => if e.spec_valid() {
                    Some(e)
                } else {
                    None
                },
                None => None,
            }),
    {
        let idx = vpn.indexes();
        proof {
            assert(idx[0] == i0_spec(vpn.0) && idx[1] == i1_spec(vpn.0) && idx[2] == i2_spec(
                vpn.0,
            ));
        }
        let e0 = mem.read_entry(self.root_ppn.0, idx[0]);
        if !e0.is_valid() {
            return None;
        }
        let e1 = mem.read_entry(e0.ppn().0, idx[1]);
        if !e1.is_valid() {
            return None;
        }
        Some(mem.read_entry(e1.ppn().0, idx[2]))
    }

    /// One step of the walk-create: returns the child node under slot `j`
    /// of `parent`, allocating and linking a fresh empty node when the slot
    /// is invalid. The set of valid mappings is unchanged either way.
    #[verifier::rlimit(100)]
    fn ensure_node(
        &mut self,
        mem: &mut PhysMem,
        parent: PhysPageNum,
        j: usize,
        parent_path: Ghost<Seq<int>>,
    ) -> (child: PhysPageNum)
        requires
            old(self).inv(*old(mem)),
            old(self).nodes().contains(parent.0 as int),
            old(self).pos_map()[parent.0 as int] == parent_path@,
            parent_path@.len() <= 1,
            j < 512,
            old(mem).free_count() >= 1,
        ensures
            final(self).inv(*final(mem)),
            final(self).root() == old(self).root(),
            final(self).nodes().contains(child.0 as int),
            final(self).pos_map()[child.0 as int] == parent_path@.push(j as int),
            final(mem).entry_at(parent.0 as int, j as int).spec_valid(),
            final(mem).entry_at(parent.0 as int, j as int).spec_rwx() == 0,
            final(mem).entry_at(parent.0 as int, j as int).spec_ppn() == child.0,
            forall|p: int| #[trigger]
                old(self).nodes().contains(p) ==> final(self).nodes().contains(p),
            forall|p: int| #[trigger]
                final(self).nodes().contains(p) ==> old(self).nodes().contains(p) || p == child.0
                    as int,
            old(self).nodes().contains(child.0 as int) || old(mem).is_free(child.0 as int),
            forall|p: int| #[trigger]
                old(self).nodes().contains(p) ==> final(self).pos_map()[p] == old(
                    self,
                ).pos_map()[p],
            forall|q: int|
                !old(self).nodes().contains(q) && !old(mem).is_free(q) ==> #[trigger] page_same(
                    *old(mem),
                    *final(mem),
                    q,
                ),
            forall|q: int| !old(mem).is_free(q) ==> !final(mem).is_free(q),
            forall|q: int| #[trigger]
                old(mem).is_free(q) ==> final(mem).is_free(q) || q == child.0 as int,
            final(mem).free_count() >= old(mem).free_count() - 1,
            forall|p: int, k: int|
                #![trigger final(mem).entry_at(p, k), old(self).nodes().contains(p)]
                old(self).nodes().contains(p) && !(p == parent.0 as int && k == j as int)
                    ==> final(mem).entry_at(p, k) == old(mem).entry_at(p, k),
            forall|vpn: u64| #[trigger]
                view_at(*final(mem), old(self).root(), vpn) == view_at(
                    *old(mem),
                    old(self).root(),
                    vpn,
                ),
            final(mem).base_spec() == old(mem).base_spec(),
            final(mem).win_len() == old(mem).win_len(),
    {
        let ghost s0 = *self;
        let ghost m0 = *mem;
        let e = mem.read_entry(parent.0, j as u64);
        if e.is_valid() {
            let child = e.ppn();
            proof {
                // the closure clause of the invariant names the child node
                assert(s0.nodes().contains(parent.0 as int) && m0.entry_at(
                    parent.0 as int,
                    j as int,
                ).spec_valid());
                assert(self.nodes().contains(child.0 as int));
            }
            child
        } else {
            let t = match mem.frame_alloc() {
                Some(t) => t,
                None => {
                    proof {
                        assert(false);
                    }
                    vstd::pervasive::unreached()
                },
            };
            let child = t.ppn;
            let ghost c = child.0 as int;
            let ghost pa = parent.0 as int;
            let ghost m1 = *mem;
            proof {
                assert(!s0.nodes().contains(c));
                assert(c != s0.root() && c != pa);
            }
            mem.make_table(child);
            let ghost m2 = *mem;
            let fl = PTEFlags::from_bits(PTE_V);
            proof {
                assert(fl.bits == PTE_V);
                assert(PTE_V & 1 == 1 && PTE_V & 0xE == 0) by (bit_vector);
                assert(fl.bits & 1 == 1);
                assert(fl.bits & 0xE == 0);
            }
            let pte = PageTableEntry::new(child, fl);
            proof {
                assert(pte.spec_valid());
                assert(pte.spec_rwx() == 0);
                assert(pte.spec_ppn() == child.0);
                assert(page_same(m0, m1, pa));
                assert(page_same(m1, m2, pa));
                assert(page_same(m0, m2, pa));
                assert(m2.is_table(pa));
            }
            mem.write_entry(parent.0, j, pte);
            let ghost m3 = *mem;
            self.frames.push(t);
            proof {
                self.pos@ = s0.pos_map().insert(c, parent_path@.push(j as int));
            }
            let ghost s1 = *self;
            proof {
                // page framing from m0 to m3
                assert forall|q: int| q != c && q != pa implies #[trigger] page_same(
                    m0,
                    m3,
                    q,
                ) by {
                    assert(page_same(m0, m1, q));
                    assert(page_same(m1, m2, q));
                    assert(page_same(m2, m3, q));
                }
                assert(page_same(m2, m3, c));
                // the new node set is the old plus the fresh child
                assert forall|p: int| #[trigger]
                    s1.nodes().contains(p) <==> s0.nodes().contains(p) || p == c by {
                    if s0.nodes().contains(p) {
                        let i = choose|i: int|
                            0 <= i < s0.frames_view().len() && (#[trigger] s0.frames_view()[i]).ppn.0
                                as int == p;
                        assert(s1.frames_view()[i].ppn.0 as int == p);
                    }
                    if p == c {
                        assert(s1.frames_view()[s1.frames_view().len() - 1].ppn.0 as int == p);
                    }
                    if s1.nodes().contains(p) {
                        let i = choose|i: int|
                            0 <= i < s1.frames_view().len() && (#[trigger] s1.frames_view()[i]).ppn.0
                                as int == p;
                        if i < s1.frames_view().len() - 1 {
                            assert(s0.frames_view()[i].ppn.0 as int == p);
                        }
                    }
                }
                assert(s1.pos_map().dom() =~= s1.nodes());
                // entries of old nodes, other than the written slot, are unchanged
                assert forall|p: int, k: int|
                    #![trigger m3.entry_at(p, k), s0.nodes().contains(p)]
                    s0.nodes().contains(p) && !(p == pa && k == j as int) implies m3.entry_at(p, k)
                    == m0.entry_at(p, k) by {
                    if p == pa {
                        assert(page_same(m0, m2, p));
                        assert(m3.table_at(p) == m2.table_at(p).update(j as int, pte));
                    } else {
                        assert(page_same(m0, m3, p));
                    }
                }
                assert(m3.entry_at(pa, j as int) == pte);
                lemma_zero_pte();
                assert forall|k: int| 0 <= k < 512 implies (#[trigger] m3.entry_at(c, k)).bits
                    == 0 by {
                    assert(m2.entry_at(c, k).bits == 0);
                    assert(page_same(m2, m3, c));
                }
                // invariant: node basics
                assert forall|p: int| #[trigger] s1.nodes().contains(p) implies m3.in_window(p)
                    && m3.is_table(p) && !m3.is_free(p) by {
                    if p == c {
                        assert(page_same(m2, m3, c));
                    } else {
                        assert(s0.nodes().contains(p));
                        if p == pa {
                        } else {
                            assert(page_same(m0, m3, p));
                        }
                    }
                }
                // invariant: every node sits at its recorded position
                assert forall|p: int| #[trigger] s1.nodes().contains(p) implies s1.pos_ok(
                    m3,
                    p,
                ) by {
                    let path = s1.pos_map()[p];
                    if p == c {
                        if parent_path@.len() == 0 {
                            assert(pa == s0.root());
                            assert(path == seq![j as int]);
                            assert(m3.entry_at(s1.root(), j as int) == pte);
                        } else {
                            let j0 = parent_path@[0];
                            assert(s0.pos_ok(m0, pa));
                            assert(pa != s0.root());
                            assert(m3.entry_at(s0.root(), j0) == m0.entry_at(s0.root(), j0));
                            assert(s1.pos_map()[pa] == parent_path@);
                            assert(path == seq![j0, j as int]);
                            assert(path[0] == j0 && path[1] == j as int);
                        }
                    } else {
                        assert(s0.nodes().contains(p));
                        assert(s0.pos_ok(m0, p));
                        assert(s1.pos_map()[p] == s0.pos_map()[p]);
                        let opath = s0.pos_map()[p];
                        if opath.len() == 1 {
                            // the slot this node hangs from was valid, so it is
                            // not the slot just written
                            assert(m0.entry_at(s0.root(), opath[0]).spec_valid());
                            assert(m3.entry_at(s0.root(), opath[0]) == m0.entry_at(
                                s0.root(),
                                opath[0],
                            ));
                        } else if opath.len() == 2 {
                            assert(m0.entry_at(s0.root(), opath[0]).spec_valid());
                            assert(m3.entry_at(s0.root(), opath[0]) == m0.entry_at(
                                s0.root(),
                                opath[0],
                            ));
                            let n1 = m0.entry_at(s0.root(), opath[0]).spec_ppn() as int;
                            assert(s0.nodes().contains(n1));
                            assert(m0.entry_at(n1, opath[1]).spec_valid());
                            assert(m3.entry_at(n1, opath[1]) == m0.entry_at(n1, opath[1]));
                        }
                    }
                }
                // invariant: valid entries of non-leaf nodes point at nodes
                assert forall|p: int, k: int|
                    #![trigger s1.nodes().contains(p), m3.entry_at(p, k)]
                    s1.nodes().contains(p) && s1.pos_map()[p].len() <= 1 && 0 <= k < 512
                        && m3.entry_at(p, k).spec_valid() implies {
                    let e2 = m3.entry_at(p, k);
                    &&& e2.spec_rwx() == 0
                    &&& s1.nodes().contains(e2.spec_ppn() as int)
                    &&& s1.pos_map()[e2.spec_ppn() as int] == s1.pos_map()[p].push(k)
                    &&& e2.spec_ppn() as int != p
                } by {
                    if p == c {
                        assert(m3.entry_at(c, k).bits == 0);
                        assert(false);
                    } else if p == pa && k == j as int {
                        assert(m3.entry_at(p, k) == pte);
                    } else {
                        assert(s0.nodes().contains(p));
                        assert(m3.entry_at(p, k) == m0.entry_at(p, k));
                        assert(s0.nodes().contains(p) && m0.entry_at(p, k).spec_valid());
                        let tgt = m0.entry_at(p, k).spec_ppn() as int;
                        assert(s0.nodes().contains(tgt));
                    }
                }
                // no valid mapping appears or disappears
                assert forall|vpn: u64| #[trigger]
                    view_at(m3, s0.root(), vpn) == view_at(m0, s0.root(), vpn) by {
                    lemma_idx_bounds(vpn);
                    let i0 = i0_spec(vpn);
                    let i1 = i1_spec(vpn);
                    let i2 = i2_spec(vpn);
                    let rt = s0.root();
                    if pa == rt {
                        if i0 == j as int {
                            // this root slot was invalid and now points at
                            // the fresh empty node: still no valid leaf
                            assert(!m0.entry_at(rt, i0).spec_valid());
                            assert(m3.entry_at(rt, i0) == pte);
                            assert(m3.entry_at(c, i1).bits == 0);
                            assert(!m3.entry_at(c, i1).spec_valid());
                        } else {
                            assert(m3.entry_at(rt, i0) == m0.entry_at(rt, i0));
                            let e0 = m0.entry_at(rt, i0);
                            if e0.spec_valid() {
                                let n1 = e0.spec_ppn() as int;
                                assert(s0.nodes().contains(rt) && m0.entry_at(
                                    rt,
                                    i0,
                                ).spec_valid());
                                assert(s0.nodes().contains(n1));
                                assert(n1 != pa && n1 != c);
                                assert(m3.entry_at(n1, i1) == m0.entry_at(n1, i1));
                                let e1 = m0.entry_at(n1, i1);
                                if e1.spec_valid() {
                                    let n2 = e1.spec_ppn() as int;
                                    assert(s0.nodes().contains(n1) && m0.entry_at(
                                        n1,
                                        i1,
                                    ).spec_valid());
                                    assert(s0.nodes().contains(n2));
                                    assert(s0.pos_map()[n2] == s0.pos_map()[n1].push(i1));
                                    assert(n2 != pa && n2 != c);
                                    assert(m3.entry_at(n2, i2) == m0.entry_at(n2, i2));
                                }
                            }
                        }
                    } else {
                        assert(pa != rt);
                        assert(m3.entry_at(rt, i0) == m0.entry_at(rt, i0));
                        let e0 = m0.entry_at(rt, i0);
                        if e0.spec_valid() {
                            let n1 = e0.spec_ppn() as int;
                            assert(s0.nodes().contains(rt) && m0.entry_at(rt, i0).spec_valid());
                            assert(s0.nodes().contains(n1));
                            assert(n1 != c);
                            if n1 == pa && i1 == j as int {
                                assert(!m0.entry_at(pa, i1).spec_valid());
                                assert(m3.entry_at(pa, i1) == pte);
                                assert(m3.entry_at(c, i2).bits == 0);
                                assert(!m3.entry_at(c, i2).spec_valid());
                            } else {
                                assert(m3.entry_at(n1, i1) == m0.entry_at(n1, i1));
                                let e1 = m0.entry_at(n1, i1);
                                if e1.spec_valid() {
                                    let n2 = e1.spec_ppn() as int;
                                    assert(s0.nodes().contains(n1) && m0.entry_at(
                                        n1,
                                        i1,
                                    ).spec_valid());
                                    assert(s0.nodes().contains(n2));
                                    assert(s0.pos_map()[n2] == s0.pos_map()[n1].push(i1));
                                    assert(s0.pos_map()[n2].len() == 2);
                                    assert(n2 != pa && n2 != c);
                                    assert(m3.entry_at(n2, i2) == m0.entry_at(n2, i2));
                                }
                            }
                        }
                    }
                }
            }
            child
        }
    }

    /// Installs the mapping `vpn -> ppn` with `flags | V` in the leaf slot
    /// of `vpn`, creating missing intermediate nodes. The slot must not
    /// hold a valid mapping; every other valid mapping is untouched.
    #[verifier::rlimit(100)]
    pub fn map(&mut self, mem: &mut PhysMem, vpn: VirtPageNum, ppn: PhysPageNum, flags: PTEFlags)
        requires
            old(self).inv(*old(mem)),
            view_at(*old(mem), old(self).root(), vpn.0) is None,
            ppn.0 < 0x1000_0000_0000u64,
            old(mem).free_count() >= 2,
        ensures
            final(self).inv(*final(mem)),
            final(self).root() == old(self).root(),
            ({
                let r = view_at(*final(mem), old(self).root(), vpn.0);
                &&& r is Some
                &&& r.unwrap().spec_ppn() == ppn.0
                &&& r.unwrap().spec_flags() == flags.bits | PTE_V
            }),
            forall|v2: u64|
                !same_slot(v2, vpn.0) ==> #[trigger] view_at(*final(mem), old(self).root(), v2)
                    == view_at(*old(mem), old(self).root(), v2),
            forall|q: int|
                !old(self).nodes().contains(q) && !old(mem).is_free(q) ==> #[trigger] page_same(
                    *old(mem),
                    *final(mem),
                    q,
                ),
            forall|q: int| !old(mem).is_free(q) ==> !final(mem).is_free(q),
            forall|p: int| #[trigger]
                old(self).nodes().contains(p) ==> final(self).nodes().contains(p),
            forall|p: int| #[trigger]
                final(self).nodes().contains(p) ==> old(self).nodes().contains(p) || old(
                    mem,
                ).is_free(p),
            final(mem).free_count() >= old(mem).free_count() - 2,
            final(mem).base_spec() == old(mem).base_spec(),
            final(mem).win_len() == old(mem).win_len(),
    {
        let ghost s0 = *self;
        let ghost m0 = *mem;
        let idx = vpn.indexes();
        proof {
            lemma_idx_bounds(vpn.0);
            assert(idx[0] == i0_spec(vpn.0) && idx[1] == i1_spec(vpn.0) && idx[2] == i2_spec(
                vpn.0,
            ));
        }
        let rp = self.root_ppn;
        let n1 = self.ensure_node(mem, rp, idx[0] as usize, Ghost(Seq::empty()));
        let ghost s1 = *self;
        let ghost m1 = *mem;
        proof {
            assert(Seq::empty().push(i0_spec(vpn.0)) =~= seq![i0_spec(vpn.0)]);
            assert(s1.pos_map()[n1.0 as int] == seq![i0_spec(vpn.0)]);
        }
        let ghost path1: Seq<int> = seq![i0_spec(vpn.0)];
        let n2 = self.ensure_node(mem, n1, idx[1] as usize, Ghost(path1));
        let ghost s2 = *self;
        let ghost m2 = *mem;
        proof {
            assert(seq![i0_spec(vpn.0)].push(i1_spec(vpn.0)) =~= seq![
                i0_spec(vpn.0),
                i1_spec(vpn.0),
            ]);
            // the path to the leaf slot is intact in m2
            assert(s1.nodes().contains(s1.root()));
            assert(m2.entry_at(s0.root(), i0_spec(vpn.0)) == m1.entry_at(
                s0.root(),
                i0_spec(vpn.0),
            )) by {
                assert(s1.pos_map()[n1.0 as int].len() == 1);
                assert(s1.pos_map()[s1.root()].len() == 0);
            }
            assert(m2.entry_at(s0.root(), i0_spec(vpn.0)).spec_valid());
            assert(m2.entry_at(s0.root(), i0_spec(vpn.0)).spec_ppn() == n1.0);
            assert(m2.entry_at(n1.0 as int, i1_spec(vpn.0)).spec_valid());
            assert(m2.entry_at(n1.0 as int, i1_spec(vpn.0)).spec_ppn() == n2.0);
            // so the walk in m2 reaches the leaf slot, whose mapping is
            // still the old one: none
            assert(walk(m2, s0.root(), vpn.0) == Some(m2.entry_at(n2.0 as int, i2_spec(vpn.0))));
            assert(view_at(m2, s0.root(), vpn.0) == view_at(m1, s0.root(), vpn.0));
            assert(view_at(m1, s0.root(), vpn.0) == view_at(m0, s0.root(), vpn.0));
            assert(!m2.entry_at(n2.0 as int, i2_spec(vpn.0)).spec_valid());
            assert(s2.nodes().contains(n2.0 as int));
            assert(m2.is_table(n2.0 as int));
        }
        let fl = flags.union(PTEFlags::from_bits(PTE_V));
        proof {
            let fb = flags.bits;
            assert((fb | 1u8) & 1 == 1) by (bit_vector);
        }
        let pte = PageTableEntry::new(ppn, fl);
        mem.write_entry(n2.0, idx[2] as usize, pte);
        let ghost m3 = *mem;
        proof {
            let rt = s0.root();
            let c2 = n2.0 as int;
            let v0 = vpn.0;
            assert(pte.spec_valid());
            assert(s2.pos_map()[c2] == seq![i0_spec(v0), i1_spec(v0)]);
            assert(c2 != rt && c2 != n1.0 as int);
            // every node except the written leaf node keeps its page
            assert forall|q: int| q != c2 implies #[trigger] page_same(m2, m3, q) by {}
            assert forall|p: int, k: int| p != c2 implies #[trigger] m3.entry_at(p, k)
                == m2.entry_at(p, k) by {
                assert(page_same(m2, m3, p));
            }
            // invariant pieces
            assert forall|p: int| #[trigger] s2.nodes().contains(p) implies m3.in_window(p)
                && m3.is_table(p) && !m3.is_free(p) by {
                if p != c2 {
                    assert(page_same(m2, m3, p));
                }
            }
            assert forall|p: int| #[trigger] s2.nodes().contains(p) implies s2.pos_ok(m3, p) by {
                assert(s2.pos_ok(m2, p));
                let path = s2.pos_map()[p];
                if path.len() == 1 {
                    assert(m3.entry_at(rt, path[0]) == m2.entry_at(rt, path[0]));
                } else if path.len() == 2 {
                    assert(m3.entry_at(rt, path[0]) == m2.entry_at(rt, path[0]));
                    let w1 = m2.entry_at(rt, path[0]).spec_ppn() as int;
                    assert(s2.nodes().contains(w1));
                    assert(s2.pos_map()[w1].len() == 1);
                    assert(w1 != c2);
                    assert(m3.entry_at(w1, path[1]) == m2.entry_at(w1, path[1]));
                }
            }
            assert forall|p: int, k: int|
                #![trigger s2.nodes().contains(p), m3.entry_at(p, k)]
                s2.nodes().contains(p) && s2.pos_map()[p].len() <= 1 && 0 <= k < 512
                    && m3.entry_at(p, k).spec_valid() implies {
                let e2 = m3.entry_at(p, k);
                &&& e2.spec_rwx() == 0
                &&& s2.nodes().contains(e2.spec_ppn() as int)
                &&& s2.pos_map()[e2.spec_ppn() as int] == s2.pos_map()[p].push(k)
                &&& e2.spec_ppn() as int != p
            } by {
                assert(p != c2);
                assert(page_same(m2, m3, p));
                assert(m3.entry_at(p, k) == m2.entry_at(p, k));
                assert(s2.nodes().contains(p) && m2.entry_at(p, k).spec_valid());
            }
            // the new mapping is in place
            assert(m3.entry_at(rt, i0_spec(v0)) == m2.entry_at(rt, i0_spec(v0)));
            assert(m3.entry_at(n1.0 as int, i1_spec(v0)) == m2.entry_at(n1.0 as int, i1_spec(v0)))
                by {
                assert(page_same(m2, m3, n1.0 as int));
            }
            assert(m3.entry_at(c2, i2_spec(v0)) == pte);
            assert(walk(m3, rt, v0) == Some(pte));
            // mappings at other slots are untouched
            assert forall|v2: u64| !same_slot(v2, v0) implies #[trigger] view_at(m3, rt, v2)
                == view_at(m0, rt, v2) by {
                lemma_idx_bounds(v2);
                assert(view_at(m2, rt, v2) == view_at(m1, rt, v2));
                assert(view_at(m1, rt, v2) == view_at(m0, rt, v2));
                let j0 = i0_spec(v2);
                let j1 = i1_spec(v2);
                let j2 = i2_spec(v2);
                assert(m3.entry_at(rt, j0) == m2.entry_at(rt, j0));
                let e0 = m2.entry_at(rt, j0);
                if e0.spec_valid() {
                    let w1 = e0.spec_ppn() as int;
                    assert(s2.nodes().contains(rt) && m2.entry_at(rt, j0).spec_valid());
                    assert(s2.nodes().contains(w1));
                    assert(s2.pos_map()[w1] == seq![j0]);
                    assert(w1 != c2);
                    assert(m3.entry_at(w1, j1) == m2.entry_at(w1, j1)) by {
                        assert(page_same(m2, m3, w1));
                    }
                    let e1 = m2.entry_at(w1, j1);
                    if e1.spec_valid() {
                        let w2 = e1.spec_ppn() as int;
                        assert(s2.nodes().contains(w1) && m2.entry_at(w1, j1).spec_valid());
                        assert(s2.nodes().contains(w2));
                        assert(s2.pos_map()[w2] == seq![j0, j1]);
                        if w2 == c2 {
                            assert(seq![j0, j1] == seq![i0_spec(v0), i1_spec(v0)]);
                            assert(j0 == i0_spec(v0) && j1 == i1_spec(v0));
                            assert(j2 != i2_spec(v0));
                            assert(m3.entry_at(c2, j2) == m2.entry_at(c2, j2)) by {
                                assert(m3.table_at(c2) == m2.table_at(c2).update(
                                    i2_spec(v0),
                                    pte,
                                ));
                            }
                        } else {
                            assert(m3.entry_at(w2, j2) == m2.entry_at(w2, j2)) by {
                                assert(page_same(m2, m3, w2));
                            }
                        }
                    }
                }
            }
            // frame accounting composes across the three steps
            assert forall|q: int|
                !s0.nodes().contains(q) && !m0.is_free(q) implies #[trigger] page_same(
                m0,
                m3,
                q,
            ) by {
                assert(page_same(m0, m1, q));
                assert(!m1.is_free(q));
                if s1.nodes().contains(q) {
                    assert(false);
                }
                assert(page_same(m1, m2, q));
                if q == c2 {
                    assert(s2.nodes().contains(c2));
                    assert(false);
                }
                assert(page_same(m2, m3, q));
            }
            assert forall|p: int| #[trigger] s2.nodes().contains(p) implies s0.nodes().contains(p)
                || m0.is_free(p) by {
                if !s0.nodes().contains(p) {
                    if s1.nodes().contains(p) {
                        assert(m0.is_free(p));
                    } else {
                        assert(p == n2.0 as int);
                        assert(m1.is_free(p));
                        if !m0.is_free(p) {
                            assert(!m1.is_free(p));
                        }
                    }
                }
            }
        }
    }

    /// Clears the leaf slot of `vpn`, which must hold a valid mapping.
    /// Intermediate nodes are kept; no frame is freed here.
    #[verifier::rlimit(100)]
    pub fn unmap(&mut self, mem: &mut PhysMem, vpn: VirtPageNum)
        requires
            old(self).inv(*old(mem)),
            view_at(*old(mem), old(self).root(), vpn.0) is Some,
        ensures
            final(self).inv(*final(mem)),
            *final(self) == *old(self),
            view_at(*final(mem), old(self).root(), vpn.0) is None,
            forall|v2: u64|
                !same_slot(v2, vpn.0) ==> #[trigger] view_at(*final(mem), old(self).root(), v2)
                    == view_at(*old(mem), old(self).root(), v2),
            forall|q: int|
                !old(self).nodes().contains(q) ==> #[trigger] page_same(
                    *old(mem),
                    *final(mem),
                    q,
                ),
            final(mem).alloc_view() == old(mem).alloc_view(),
            final(mem).base_spec() == old(mem).base_spec(),
            final(mem).win_len() == old(mem).win_len(),
    {
        let ghost s0 = *self;
        let ghost m0 = *mem;
        let idx = vpn.indexes();
        proof {
            lemma_idx_bounds(vpn.0);
            assert(idx[0] == i0_spec(vpn.0) && idx[1] == i1_spec(vpn.0) && idx[2] == i2_spec(
                vpn.0,
            ));
        }
        let e0 = mem.read_entry(self.root_ppn.0, idx[0]);
        let n1 = e0.ppn();
        let e1 = mem.read_entry(n1.0, idx[1]);
        let n2 = e1.ppn();
        proof {
            let rt = s0.root();
            assert(e0.spec_valid() && e1.spec_valid());
            assert(s0.nodes().contains(rt) && m0.entry_at(rt, i0_spec(vpn.0)).spec_valid());
            assert(s0.nodes().contains(n1.0 as int));
            assert(s0.nodes().contains(n1.0 as int) && m0.entry_at(
                n1.0 as int,
                i1_spec(vpn.0),
            ).spec_valid());
            assert(s0.nodes().contains(n2.0 as int));
            assert(m0.is_table(n2.0 as int));
        }
        let zero = PageTableEntry::empty();
        mem.write_entry(n2.0, idx[2] as usize, zero);
        let ghost m3 = *mem;
        proof {
            lemma_zero_pte();
            let rt = s0.root();
            let c2 = n2.0 as int;
            let v0 = vpn.0;
            assert(s0.pos_map()[c2] == seq![i0_spec(v0), i1_spec(v0)]);
            assert(c2 != rt && c2 != n1.0 as int);
            assert forall|q: int| q != c2 implies #[trigger] page_same(m0, m3, q) by {}
            assert forall|p: int, k: int| p != c2 implies #[trigger] m3.entry_at(p, k)
                == m0.entry_at(p, k) by {
                assert(page_same(m0, m3, p));
            }
            assert forall|p: int| #[trigger] s0.nodes().contains(p) implies m3.in_window(p)
                && m3.is_table(p) && !m3.is_free(p) by {
                if p != c2 {
                    assert(page_same(m0, m3, p));
                }
            }
            assert forall|p: int| #[trigger] s0.nodes().contains(p) implies s0.pos_ok(m3, p) by {
                assert(s0.pos_ok(m0, p));
                let path = s0.pos_map()[p];
                if path.len() == 1 {
                    assert(m3.entry_at(rt, path[0]) == m0.entry_at(rt, path[0]));
                } else if path.len() == 2 {
                    assert(m3.entry_at(rt, path[0]) == m0.entry_at(rt, path[0]));
                    let w1 = m0.entry_at(rt, path[0]).spec_ppn() as int;
                    assert(s0.nodes().contains(w1));
                    assert(s0.pos_map()[w1].len() == 1);
                    assert(w1 != c2);
                    assert(m3.entry_at(w1, path[1]) == m0.entry_at(w1, path[1]));
                }
            }
            assert forall|p: int, k: int|
                #![trigger s0.nodes().contains(p), m3.entry_at(p, k)]
                s0.nodes().contains(p) && s0.pos_map()[p].len() <= 1 && 0 <= k < 512
                    && m3.entry_at(p, k).spec_valid() implies {
                let e2 = m3.entry_at(p, k);
                &&& e2.spec_rwx() == 0
                &&& s0.nodes().contains(e2.spec_ppn() as int)
                &&& s0.pos_map()[e2.spec_ppn() as int] == s0.pos_map()[p].push(k)
                &&& e2.spec_ppn() as int != p
            } by {
                assert(p != c2);
                assert(page_same(m0, m3, p));
                assert(m3.entry_at(p, k) == m0.entry_at(p, k));
                assert(s0.nodes().contains(p) && m0.entry_at(p, k).spec_valid());
            }
            assert(m3.entry_at(rt, i0_spec(v0)) == m0.entry_at(rt, i0_spec(v0)));
            assert(m3.entry_at(n1.0 as int, i1_spec(v0)) == m0.entry_at(n1.0 as int, i1_spec(v0)))
                by {
                assert(page_same(m0, m3, n1.0 as int));
            }
            assert(m3.entry_at(c2, i2_spec(v0)).bits == 0);
            assert(!m3.entry_at(c2, i2_spec(v0)).spec_valid());
            assert forall|v2: u64| !same_slot(v2, v0) implies #[trigger] view_at(m3, rt, v2)
                == view_at(m0, rt, v2) by {
                lemma_idx_bounds(v2);
                let j0 = i0_spec(v2);
                let j1 = i1_spec(v2);
                let j2 = i2_spec(v2);
                assert(m3.entry_at(rt, j0) == m0.entry_at(rt, j0));
                let f0 = m0.entry_at(rt, j0);
                if f0.spec_valid() {
                    let w1 = f0.spec_ppn() as int;
                    assert(s0.nodes().contains(rt) && m0.entry_at(rt, j0).spec_valid());
                    assert(s0.nodes().contains(w1));
                    assert(s0.pos_map()[w1] == seq![j0]);
                    assert(w1 != c2);
                    assert(m3.entry_at(w1, j1) == m0.entry_at(w1, j1)) by {
                        assert(page_same(m0, m3, w1));
                    }
                    let f1 = m0.entry_at(w1, j1);
                    if f1.spec_valid() {
                        let w2 = f1.spec_ppn() as int;
                        assert(s0.nodes().contains(w1) && m0.entry_at(w1, j1).spec_valid());
                        assert(s0.nodes().contains(w2));
                        assert(s0.pos_map()[w2] == seq![j0, j1]);
                        if w2 == c2 {
                            assert(seq![j0, j1] == seq![i0_spec(v0), i1_spec(v0)]);
                            assert(j0 == i0_spec(v0) && j1 == i1_spec(v0));
                            assert(j2 != i2_spec(v0));
                            assert(m3.entry_at(c2, j2) == m0.entry_at(c2, j2)) by {
                                assert(m3.table_at(c2) == m0.table_at(c2).update(
                                    i2_spec(v0),
                                    zero,
                                ));
                            }
                        } else {
                            assert(m3.entry_at(w2, j2) == m0.entry_at(w2, j2)) by {
                                assert(page_same(m0, m3, w2));
                            }
                        }
                    }
                }
            }
        }
    }
}

/// Below `2^27`, equal walk slots mean equal page numbers.
pub proof fn lemma_same_slot_small(a: u64, b: u64)
    requires
        a < 0x800_0000,
        b < 0x800_0000,
        same_slot(a, b),
    ensures
        a == b,
{
    assert(a < 0x800_0000 && b < 0x800_0000 && (a >> 18) & 511 == (b >> 18) & 511 && (a >> 9) & 511
        == (b >> 9) & 511 && a & 511 == b & 511 ==> a == b) by (bit_vector);
}

/// Any page number walks through the same slot as its canonical 27-bit
/// image: the hardware reads only virtual-address bits 38..12.
pub proof fn lemma_slot_mask(v: u64)
    ensures
        same_slot(v, v & 0x7FF_FFFF),
        v & 0x7FF_FFFF < 0x800_0000,
{
    assert((v >> 18) & 511 == ((v & 0x7FF_FFFF) >> 18) & 511 && (v >> 9) & 511 == ((v & 0x7FF_FFFF)
        >> 9) & 511 && v & 511 == (v & 0x7FF_FFFF) & 511 && v & 0x7FF_FFFF < 0x800_0000)
        by (bit_vector);
}

/// A walk reads only entries of this table's nodes, so it is unchanged by
/// any mutation that leaves those entries alone.
pub proof fn lemma_walk_unchanged(pt: PageTable, m0: PhysMem, m1: PhysMem)
    requires
        pt.inv(m0),
        forall|p: int, k: int|
            pt.nodes().contains(p) ==> #[trigger] m1.entry_at(p, k) == m0.entry_at(p, k),
    ensures
        forall|v: u64| #[trigger] walk(m1, pt.root(), v) == walk(m0, pt.root(), v),
{
    let rt = pt.root();
    assert forall|v: u64| #[trigger] walk(m1, pt.root(), v) == walk(m0, pt.root(), v) by {
        lemma_idx_bounds(v);
        let j0 = i0_spec(v);
        let j1 = i1_spec(v);
        let j2 = i2_spec(v);
        assert(m1.entry_at(rt, j0) == m0.entry_at(rt, j0));
        let e0 = m0.entry_at(rt, j0);
        if e0.spec_valid() {
            let w1 = e0.spec_ppn() as int;
            assert(pt.nodes().contains(rt) && m0.entry_at(rt, j0).spec_valid());
            assert(pt.nodes().contains(w1));
            assert(m1.entry_at(w1, j1) == m0.entry_at(w1, j1));
            let e1 = m0.entry_at(w1, j1);
            if e1.spec_valid() {
                let w2 = e1.spec_ppn() as int;
                assert(pt.nodes().contains(w1) && m0.entry_at(w1, j1).spec_valid());
                assert(pt.nodes().contains(w2));
                assert(m1.entry_at(w2, j2) == m0.entry_at(w2, j2));
            }
        }
    }
}

/// The table invariant survives any mutation that keeps its node pages and
/// their allocation state.
pub proof fn lemma_inv_preserved(pt: PageTable, m0: PhysMem, m1: PhysMem)
    requires
        pt.inv(m0),
        m1.wf(),
        m1.base_spec() == m0.base_spec(),
        m1.win_len() == m0.win_len(),
        forall|p: int| pt.nodes().contains(p) ==> #[trigger] page_same(m0, m1, p),
        forall|p: int| pt.nodes().contains(p) ==> !(#[trigger] m1.is_free(p)),
    ensures
        pt.inv(m1),
{
    assert forall|p: int, k: int|
        pt.nodes().contains(p) implies #[trigger] m1.entry_at(p, k) == m0.entry_at(p, k) by {
        assert(page_same(m0, m1, p));
    }
    assert forall|p: int| #[trigger] pt.nodes().contains(p) implies m1.in_window(p)
        && m1.is_table(p) && !m1.is_free(p) by {
        assert(page_same(m0, m1, p));
    }
    assert forall|p: int| #[trigger] pt.nodes().contains(p) implies pt.pos_ok(m1, p) by {
        assert(pt.pos_ok(m0, p));
        let path = pt.pos_map()[p];
        let rt = pt.root();
        if path.len() == 1 {
            assert(m1.entry_at(rt, path[0]) == m0.entry_at(rt, path[0]));
        } else if path.len() == 2 {
            assert(m1.entry_at(rt, path[0]) == m0.entry_at(rt, path[0]));
            let w1 = m0.entry_at(rt, path[0]).spec_ppn() as int;
            assert(pt.nodes().contains(w1));
            assert(m1.entry_at(w1, path[1]) == m0.entry_at(w1, path[1]));
        }
    }
    assert forall|p: int, k: int|
        #![trigger pt.nodes().contains(p), m1.entry_at(p, k)]
        pt.nodes().contains(p) && pt.pos_map()[p].len() <= 1 && 0 <= k < 512 && m1.entry_at(
            p,
            k,
        ).spec_valid() implies {
        let e2 = m1.entry_at(p, k);
        &&& e2.spec_rwx() == 0
        &&& pt.nodes().contains(e2.spec_ppn() as int)
        &&& pt.pos_map()[e2.spec_ppn() as int] == pt.pos_map()[p].push(k)
        &&& e2.spec_ppn() as int != p
    } by {
        assert(m1.entry_at(p, k) == m0.entry_at(p, k));
        assert(pt.nodes().contains(p) && m0.entry_at(p, k).spec_valid());
    }
}

/// Splits the user buffer `[ptr, ptr + len)` of the address space chosen
/// by `token` at page boundaries and returns a copy of each piece, read
/// through the translated physical pages.
#[verifier::rlimit(100)]
#[verifier::loop_isolation(false)]
pub fn translated_byte_buffer(mem: &PhysMem, token: u64, ptr: u64, len: u64) -> (r: Vec<Vec<u8>>)
    requires
        mem.wf(),
        ptr + len <= u64::MAX,
        crate::address::spec_ceil((ptr + len) as u64) <= 0x800_0000,
        forall|v: u64|
            crate::address::spec_floor(ptr) <= v < crate::address::spec_ceil((ptr + len) as u64)
                ==> {
                let e = #[trigger] view_at(*mem, (token & 0xFFF_FFFF_FFFFu64) as int, v);
                e is Some && mem.is_data(e.unwrap().spec_ppn() as int)
            },
    ensures
        ({
            let root = (token & 0xFFF_FFFF_FFFFu64) as int;
            let lo = crate::address::spec_floor(ptr);
            let hi = crate::address::spec_ceil((ptr + len) as u64);
            &&& (len == 0 ==> r@.len() == 0)
            &&& (len > 0 ==> r@.len() == hi - lo && forall|j: int|
                0 <= j < r@.len() ==> {
                    let e = #[trigger] view_at(*mem, root, (lo + j) as u64);
                    let pg = mem.data_at(e.unwrap().spec_ppn() as int);
                    let s = if j == 0 {
                        (ptr % 4096) as int
                    } else {
                        0
                    };
                    let t = if lo + j == hi - 1 {
                        ((ptr + len - 1) % 4096 + 1) as int
                    } else {
                        4096
                    };
                    r@[j]@ == pg.subrange(s, t)
                })
        }),
{
    let page_table = PageTable::from_token(token);
    let ghost root = (token & 0xFFF_FFFF_FFFFu64) as int;
    let ghost lo = crate::address::spec_floor(ptr);
    let ghost hi = crate::address::spec_ceil((ptr + len) as u64);
    let mut v: Vec<Vec<u8>> = Vec::new();
    if len == 0 {
        return v;
    }
    let end = ptr + len;
    let mut start = ptr;
    while start < end
        invariant
            ptr <= start <= end,
            end == ptr + len,
            len > 0,
            start == ptr || start % 4096 == 0 || start == end,
            start < end ==> crate::address::spec_floor(start) == lo + v@.len(),
            v@.len() <= hi - lo,
            start == end ==> v@.len() == hi - lo,
            forall|j: int|
                0 <= j < v@.len() ==> {
                    let e = #[trigger] view_at(*mem, root, (lo + j) as u64);
                    let pg = mem.data_at(e.unwrap().spec_ppn() as int);
                    let s = if j == 0 {
                        (ptr % 4096) as int
                    } else {
                        0
                    };
                    let t = if lo + j == hi - 1 {
                        ((ptr + len - 1) % 4096 + 1) as int
                    } else {
                        4096
                    };
                    v@[j]@ == pg.subrange(s, t)
                },
        decreases end - start,
    {
        let start_va = VirtAddr(start);
        let vpn = start_va.floor();
        proof {
            assert(lo <= vpn.0 < hi) by {
                assert(vpn.0 == crate::address::spec_floor(start));
                assert(start <= end - 1);
                assert(vpn.0 <= crate::address::spec_floor((end - 1) as u64)) by (nonlinear_arith)
                    requires vpn.0 == start / 4096 && crate::address::spec_floor((end - 1) as u64) == (end - 1) / 4096 && start <= end - 1,
                ;
                assert(crate::address::spec_floor((end - 1) as u64) < hi) by (nonlinear_arith)
                    requires
                        crate::address::spec_floor((end - 1) as u64) == (end - 1) / 4096,
                        hi == crate::address::spec_ceil(end),
                        end >= 1,
                ;
            }
        }
        let pte = match page_table.translate(mem, vpn) {
            Some(p) => p,
            None => {
                proof {
                    assert(view_at(*mem, root, vpn.0) is Some);
                    assert(false);
                }
                vstd::pervasive::unreached()
            },
        };
        proof {
            assert(view_at(*mem, root, vpn.0) is Some);
            assert(pte.spec_valid());
            assert(view_at(*mem, root, vpn.0) == Some(pte));
        }
        let ppn = pte.ppn();
        let page_end = (vpn.0 + 1) * 4096;
        let end_va = if page_end < end {
            page_end
        } else {
            end
        };
        let s_off = (start % 4096) as usize;
        let t_off = if end_va % 4096 == 0 {
            4096usize
        } else {
            (end_va % 4096) as usize
        };
        proof {
            assert(vpn.0 * 4096 <= start < (vpn.0 + 1) * 4096) by (nonlinear_arith)
                requires vpn.0 == start / 4096,
            ;
            assert(s_off <= t_off) by (nonlinear_arith)
                requires
                    s_off == start % 4096,
                    t_off == (if end_va % 4096 == 0 { 4096int } else { (end_va % 4096) as int }),
                    vpn.0 * 4096 <= start < (vpn.0 + 1) * 4096,
                    start < end_va <= (vpn.0 + 1) * 4096,
                    end_va as int == (if (vpn.0 + 1) * 4096 < end {
                        ((vpn.0 + 1) * 4096) as int
                    } else {
                        end as int
                    }),
            ;
        }
        let chunk = mem.read_data(ppn.0, s_off, t_off);
        v.push(chunk);
        proof {
            let j = v@.len() - 1;
            assert(lo + j == vpn.0);
            // the piece is exactly the prescribed slice of this page
            if vpn.0 == hi - 1 {
                assert(end_va == end) by (nonlinear_arith)
                    requires
                        vpn.0 == hi - 1,
                        hi == crate::address::spec_ceil(end),
                        end_va as int == (if (vpn.0 + 1) * 4096 < end {
                            ((vpn.0 + 1) * 4096) as int
                        } else {
                            end as int
                        }),
                        end >= 1,
                ;
                assert(t_off == (end - 1) % 4096 + 1) by (nonlinear_arith)
                    requires
                        t_off == (if end % 4096 == 0 { 4096int } else { (end % 4096) as int }),
                        end >= 1,
                ;
            } else {
                assert(end_va == (vpn.0 + 1) * 4096) by (nonlinear_arith)
                    requires
                        lo <= vpn.0 < hi - 1,
                        hi == crate::address::spec_ceil(end),
                        end_va as int == (if (vpn.0 + 1) * 4096 < end {
                            ((vpn.0 + 1) * 4096) as int
                        } else {
                            end as int
                        }),
                        end >= 1,
                ;
                assert(t_off == 4096);
            }
            if j != 0 {
                assert(start % 4096 == 0);
                assert(s_off == 0);
            }
        }
        start = end_va;
        proof {
            if start < end {
                assert(crate::address::spec_floor(start) == lo + v@.len()) by (nonlinear_arith)
                    requires
                        start == end_va,
                        end_va as int == (vpn.0 + 1) * 4096 || end_va == end,
                        start < end,
                        crate::address::spec_floor(start) == start / 4096,
                        lo + v@.len() == vpn.0 + 1,
                ;
            } else {
                assert(v@.len() == hi - lo);
            }
            assert(start % 4096 == 0 || start >= end) by (nonlinear_arith)
                requires
                    start == end_va,
                    end_va as int == (vpn.0 + 1) * 4096 || end_va == end,
                    start < end ==> end_va as int == (vpn.0 + 1) * 4096,
            ;
        }
    }
    v
}

} // verus!
