//! The model of physical page frames.
//!
//! The kernel reads and writes physical pages through their page numbers.
//! Here every frame of the allocatable window is held in one store, tagged
//! by its current role: untouched RAM, a page-table node of 512 entries, or
//! a data page of 4096 bytes. A zero-filled frame and a table of empty
//! entries are the same bytes; the tag records which way the kernel uses
//! the frame, and the kernel never uses one frame both ways at once.

use vstd::prelude::*;

use crate::address::PhysPageNum;
use crate::frame_allocator::{FrameTracker, StackFrameAllocator};
use crate::page_table::PageTableEntry;

verus! {

/// Content of one physical frame.
pub enum Page {
    /// Never written since boot: content unknown.
    Raw,
    /// A page-table node.
    Table(Vec<PageTableEntry>),
    /// A data page.
    Data(Vec<u8>),
}

/// The allocatable physical window `[base, base + pages.len())` together
/// with the frame allocator that hands its pages out.
pub struct PhysMem {
    allocator: StackFrameAllocator,
    base: u64,
    pages: Vec<Page>,
}

/// All-zero content of a fresh data page.
pub open spec fn zero_page() -> Seq<u8> {
    Seq::new(4096, |i: int| 0u8)
}

/// Page `p` has the same role and content in `pre` and `post`.
pub open spec fn page_same(pre: PhysMem, post: PhysMem, p: int) -> bool {
    &&& post.is_table(p) == pre.is_table(p)
    &&& post.is_data(p) == pre.is_data(p)
    &&& post.table_at(p) == pre.table_at(p)
    &&& post.data_at(p) == pre.data_at(p)
}

/// The window is unchanged and every page but `p` keeps role and content.
pub open spec fn same_except(pre: PhysMem, post: PhysMem, p: int) -> bool {
    &&& post.base_spec() == pre.base_spec()
    &&& post.win_len() == pre.win_len()
    &&& forall|q: int| q != p ==> #[trigger] page_same(pre, post, q)
}

impl PhysMem {
    pub closed spec fn base_spec(self) -> int {
        self.base as int
    }

    pub closed spec fn win_len(self) -> int {
        self.pages@.len() as int
    }

    pub open spec fn in_window(self, p: int) -> bool {
        self.base_spec() <= p < self.base_spec() + self.win_len()
    }

    pub closed spec fn alloc_view(self) -> StackFrameAllocator {
        self.allocator
    }

    pub open spec fn is_free(self, p: int) -> bool {
        self.alloc_view().is_free(p)
    }

    pub open spec fn free_count(self) -> int {
        self.alloc_view().free_count()
    }

    pub closed spec fn is_table(self, p: int) -> bool {
        self.in_window(p) && self.pages@[p - self.base_spec()] is Table
    }

    pub closed spec fn is_data(self, p: int) -> bool {
        self.in_window(p) && self.pages@[p - self.base_spec()] is Data
    }

    pub closed spec fn table_at(self, p: int) -> Seq<PageTableEntry> {
        if self.is_table(p) {
            self.pages@[p - self.base_spec()]->Table_0@
        } else {
            Seq::empty()
        }
    }

    pub closed spec fn data_at(self, p: int) -> Seq<u8> {
        if self.is_data(p) {
            self.pages@[p - self.base_spec()]->Data_0@
        } else {
            Seq::empty()
        }
    }

    /// Entry `idx` of table node `node`; an empty entry where there is no
    /// table or the index is out of range, so that walks are total.
    pub open spec fn entry_at(self, node: int, idx: int) -> PageTableEntry {
        if 0 <= idx < self.table_at(node).len() {
            self.table_at(node)[idx]
        } else {
            PageTableEntry { bits: 0 }
        }
    }

    pub open spec fn wf(self) -> bool {
        &&& self.win_len() <= usize::MAX
        &&& self.base_spec() + self.win_len() <= 0x1000_0000_0000
        &&& self.alloc_view().wf()
        &&& self.base_spec() <= self.alloc_view().current_spec()
        &&& self.alloc_view().end_spec() == self.base_spec() + self.win_len()
        &&& forall|i: int|
            0 <= i < self.alloc_view().recycled_view().len()
                ==> #[trigger] self.alloc_view().recycled_view()[i] >= self.base_spec()
        &&& forall|p: int| #[trigger] self.is_table(p) ==> self.table_at(p).len() == 512
        &&& forall|p: int| #[trigger] self.is_data(p) ==> self.data_at(p).len() == 4096
    }

    /// A free page lies inside the window.
    proof fn lemma_free_in_window(self, p: int)
        requires
            self.wf(),
            self.is_free(p),
        ensures
            self.in_window(p),
    {
        let a = self.alloc_view();
        if exists|i: int|
            0 <= i < a.recycled_view().len() && #[trigger] a.recycled_view()[i] as int == p {
            let i = choose|i: int|
                0 <= i < a.recycled_view().len() && #[trigger] a.recycled_view()[i] as int == p;
            assert(a.recycled_view()[i] >= self.base_spec());
            assert(a.recycled_view()[i] < a.current_spec());
        }
    }

    /// Whether at least `need` frames are still free.
    pub fn has_free(&self, need: u64) -> (r: bool)
        requires
            self.wf(),
        ensures
            r == (self.free_count() >= need),
    {
        self.allocator.has_free(need)
    }

    /// Fresh physical memory over the page window `[l, r)`: every page is
    /// untouched RAM and free.
    pub fn new(l: PhysPageNum, r: PhysPageNum) -> (m: PhysMem)
        requires
            l.0 <= r.0,
            r.0 <= 0x1000_0000_0000u64,
            r.0 - l.0 <= usize::MAX,
        ensures
            m.wf(),
            m.base_spec() == l.0,
            m.win_len() == r.0 - l.0,
            m.free_count() == r.0 - l.0,
            forall|p: int| !m.is_table(p) && !m.is_data(p),
            forall|p: int| m.is_free(p) <==> l.0 <= p < r.0,
            m.alloc_view().current_spec() == l.0,
    {
        let mut allocator = StackFrameAllocator::new();
        allocator.init(l, r);
        let n = (r.0 - l.0) as usize;
        let mut pages: Vec<Page> = Vec::new();
        let mut i: usize = 0;
        while i < n
            invariant
                i <= n,
                pages@.len() == i,
                forall|j: int| 0 <= j < i ==> pages@[j] is Raw,
            decreases n - i,
        {
            pages.push(Page::Raw);
            i = i + 1;
        }
        let m = PhysMem { allocator, base: l.0, pages };
        proof {
            assert forall|p: int| !m.is_table(p) && !m.is_data(p) by {
                if m.in_window(p) {
                    assert(m.pages@[p - m.base_spec()] is Raw);
                }
            }
        }
        m
    }

    /// Takes one free frame, zero-fills it, and hands back its tracker.
    /// Returns `None` exactly when no frame is free.
    pub fn frame_alloc(&mut self) -> (r: Option<FrameTracker>)
        requires
            old(self).wf(),
        ensures
            final(self).wf(),
            final(self).base_spec() == old(self).base_spec(),
            final(self).win_len() == old(self).win_len(),
            r is None ==> old(self).free_count() == 0 && final(self).free_count() == 0 && forall|
                q: int,
            | #[trigger] page_same(*old(self), *final(self), q),
            r is Some ==> {
                let p = r.unwrap().ppn.0 as int;
                &&& old(self).in_window(p)
                &&& old(self).is_free(p)
                &&& !final(self).is_free(p)
                &&& forall|q: int| q != p ==> final(self).is_free(q) == old(self).is_free(q)
                &&& final(self).free_count() == old(self).free_count() - 1
                &&& final(self).is_data(p)
                &&& !final(self).is_table(p)
                &&& final(self).data_at(p) == zero_page()
                &&& same_except(*old(self), *final(self), p)
            },
    {
        let ghost pre = *self;
        match self.allocator.alloc_frame() {
            None => {
                proof {
                    assert forall|q: int| #[trigger] page_same(pre, *self, q) by {}
                    assert forall|t: int| #[trigger] self.is_table(t) implies self.table_at(
                        t,
                    ).len() == 512 by {
                        assert(page_same(pre, *self, t));
                    }
                    assert forall|t: int| #[trigger] self.is_data(t) implies self.data_at(t).len()
                        == 4096 by {
                        assert(page_same(pre, *self, t));
                    }
                }
                None
            },
            Some(ppn) => {
                proof {
                    pre.lemma_free_in_window(ppn.0 as int);
                    let a = self.alloc_view();
                    assert forall|i: int|
                        0 <= i < a.recycled_view().len() implies #[trigger] a.recycled_view()[i]
                        >= self.base_spec() by {
                        let v = a.recycled_view()[i];
                        assert(pre.alloc_view().recycled_view().contains(v));
                        let j = choose|j: int|
                            0 <= j < pre.alloc_view().recycled_view().len()
                                && pre.alloc_view().recycled_view()[j] == v;
                        assert(pre.alloc_view().recycled_view()[j] >= pre.base_spec());
                    }
                }
                proof {
                    assert(pre.win_len() <= usize::MAX);
                }
                let idx = (ppn.0 - self.base) as usize;
                proof {
                    assert(idx as int == ppn.0 - pre.base_spec());
                }
                let mut zv: Vec<u8> = Vec::new();
                let mut i: usize = 0;
                while i < 4096
                    invariant
                        i <= 4096,
                        zv@.len() == i,
                        forall|j: int| 0 <= j < i ==> zv@[j] == 0u8,
                    decreases 4096 - i,
                {
                    zv.push(0u8);
                    i = i + 1;
                }
                let slot = &mut self.pages[idx];
                *slot = Page::Data(zv);
                proof {
                    let p = ppn.0 as int;
                    assert(self.is_data(p));
                    assert(self.data_at(p) =~= zero_page());
                    assert forall|q: int| q != p implies #[trigger] page_same(pre, *self, q) by {
                        if pre.in_window(q) {
                            assert(q - pre.base_spec() != idx as int);
                            assert(self.pages@[q - self.base_spec()] == pre.pages@[q
                                - pre.base_spec()]);
                        }
                    }
                    assert forall|t: int| #[trigger] self.is_table(t) implies self.table_at(
                        t,
                    ).len() == 512 by {
                        if t != p {
                            assert(page_same(pre, *self, t));
                        }
                    }
                    assert forall|t: int| #[trigger] self.is_data(t) implies self.data_at(t).len()
                        == 4096 by {
                        if t != p {
                            assert(page_same(pre, *self, t));
                        }
                    }
                }
                Some(FrameTracker { ppn })
            },
        }
    }

    /// Returns an allocated frame to the allocator; its content is left in
    /// place but the page is free again.
    pub fn frame_dealloc(&mut self, ppn: PhysPageNum)
        requires
            old(self).wf(),
            old(self).in_window(ppn.0 as int),
            !old(self).is_free(ppn.0 as int),
        ensures
            final(self).wf(),
            final(self).base_spec() == old(self).base_spec(),
            final(self).win_len() == old(self).win_len(),
            final(self).is_free(ppn.0 as int),
            forall|q: int| q != ppn.0 ==> final(self).is_free(q) == old(self).is_free(q),
            final(self).free_count() == old(self).free_count() + 1,
            forall|q: int| #[trigger] page_same(*old(self), *final(self), q),
            final(self).alloc_view().current_spec() == old(self).alloc_view().current_spec(),
    {
        let ghost pre = *self;
        self.allocator.dealloc(ppn);
        proof {
            let a = self.alloc_view();
            assert forall|i: int|
                0 <= i < a.recycled_view().len() implies #[trigger] a.recycled_view()[i]
                >= self.base_spec() by {
                if i < pre.alloc_view().recycled_view().len() {
                    assert(pre.alloc_view().recycled_view()[i] >= pre.base_spec());
                }
            }
            assert forall|q: int| #[trigger] page_same(pre, *self, q) by {}
            assert forall|t: int| #[trigger] self.is_table(t) implies self.table_at(t).len()
                == 512 by {
                assert(page_same(pre, *self, t));
            }
            assert forall|t: int| #[trigger] self.is_data(t) implies self.data_at(t).len()
                == 4096 by {
                assert(page_same(pre, *self, t));
            }
        }
    }

    /// Turns frame `ppn` into a table node of empty entries. Used only on a
    /// frame the caller just took from the allocator.
    pub(crate) fn make_table(&mut self, ppn: PhysPageNum)
        requires
            old(self).wf(),
            old(self).in_window(ppn.0 as int),
        ensures
            final(self).wf(),
            final(self).alloc_view() == old(self).alloc_view(),
            final(self).is_table(ppn.0 as int),
            !final(self).is_data(ppn.0 as int),
            final(self).table_at(ppn.0 as int).len() == 512,
            forall|j: int| 0 <= j < 512 ==> (#[trigger] final(self).entry_at(ppn.0 as int, j)).bits
                == 0,
            same_except(*old(self), *final(self), ppn.0 as int),
    {
        let ghost pre = *self;
        let e = PageTableEntry::empty();
        let mut tv: Vec<PageTableEntry> = Vec::new();
        let mut i: usize = 0;
        while i < 512
            invariant
                i <= 512,
                tv@.len() == i,
                forall|j: int| 0 <= j < i ==> tv@[j].bits == 0,
                e.bits == 0,
            decreases 512 - i,
        {
            tv.push(e);
            i = i + 1;
        }
        proof {
            assert(pre.win_len() <= usize::MAX);
        }
        let idx = (ppn.0 - self.base) as usize;
        proof {
            assert(idx as int == ppn.0 - pre.base_spec());
        }
        let slot = &mut self.pages[idx];
        *slot = Page::Table(tv);
        proof {
            let p = ppn.0 as int;
            assert(self.is_table(p));
            assert(self.table_at(p).len() == 512);
            assert forall|j: int| 0 <= j < 512 implies (#[trigger] self.entry_at(p, j)).bits
                == 0 by {
                assert(self.table_at(p)[j].bits == 0);
            }
            assert forall|q: int| q != p implies #[trigger] page_same(pre, *self, q) by {
                if pre.in_window(q) {
                    assert(q - pre.base_spec() != idx as int);
                    assert(self.pages@[q - self.base_spec()] == pre.pages@[q - pre.base_spec()]);
                }
            }
            assert forall|t: int| #[trigger] self.is_table(t) implies self.table_at(t).len()
                == 512 by {
                if t != p {
                    assert(page_same(pre, *self, t));
                }
            }
            assert forall|t: int| #[trigger] self.is_data(t) implies self.data_at(t).len()
                == 4096 by {
                if t != p {
                    assert(page_same(pre, *self, t));
                }
            }
        }
    }

    /// Copy of entry `idx` of table node `node`; empty when there is no
    /// such table or index.
    pub fn read_entry(&self, node: u64, idx: u64) -> (r: PageTableEntry)
        ensures
            r == self.entry_at(node as int, idx as int),
    {
        if node >= self.base && node - self.base < self.pages.len() as u64 {
            let i = (node - self.base) as usize;
            match &self.pages[i] {
                Page::Table(v) => {
                    proof {
                        assert(self.is_table(node as int));
                        assert(self.table_at(node as int) == v@);
                    }
                    if idx < v.len() as u64 {
                        v[idx as usize]
                    } else {
                        PageTableEntry::empty()
                    }
                },
                _ => PageTableEntry::empty(),
            }
        } else {
            PageTableEntry::empty()
        }
    }

    /// Writes entry `idx` of table node `node`.
    pub(crate) fn write_entry(&mut self, node: u64, idx: usize, pte: PageTableEntry)
        requires
            old(self).wf(),
            old(self).is_table(node as int),
            idx < 512,
        ensures
            final(self).wf(),
            final(self).alloc_view() == old(self).alloc_view(),
            final(self).is_table(node as int),
            final(self).table_at(node as int) == old(self).table_at(node as int).update(
                idx as int,
                pte,
            ),
            same_except(*old(self), *final(self), node as int),
    {
        let ghost pre = *self;
        proof {
            assert(pre.win_len() <= usize::MAX);
        }
        let i = (node - self.base) as usize;
        proof {
            assert(i as int == node - pre.base_spec());
        }
        let slot = &mut self.pages[i];
        let mut page = Page::Raw;
        core::mem::swap(&mut page, slot);
        match page {
            Page::Table(mut v) => {
                proof {
                    assert(v@ == pre.table_at(node as int));
                    assert(v@.len() == 512);
                }
                let cell = &mut v[idx];
                *cell = pte;
                let mut back = Page::Table(v);
                core::mem::swap(&mut back, slot);
                proof {
                    let p = node as int;
                    assert(self.is_table(p));
                    assert(self.table_at(p) =~= pre.table_at(p).update(idx as int, pte));
                    assert forall|q: int| q != p implies #[trigger] page_same(pre, *self, q) by {
                        if pre.in_window(q) {
                            assert(q - pre.base_spec() != i as int);
                            assert(self.pages@[q - self.base_spec()] == pre.pages@[q
                                - pre.base_spec()]);
                        }
                    }
                    assert forall|t: int| #[trigger] self.is_table(t) implies self.table_at(
                        t,
                    ).len() == 512 by {
                        if t != p {
                            assert(page_same(pre, *self, t));
                        }
                    }
                    assert forall|t: int| #[trigger] self.is_data(t) implies self.data_at(t).len()
                        == 4096 by {
                        if t != p {
                            assert(page_same(pre, *self, t));
                        }
                    }
                }
            },
            _ => {
                proof {
                    assert(false);
                }
            },
        }
    }

    /// Writes `src` into data page `ppn` starting at byte `off`.
    pub(crate) fn write_data(&mut self, ppn: u64, off: usize, src: &[u8])
        requires
            old(self).wf(),
            old(self).is_data(ppn as int),
            off + src@.len() <= 4096,
        ensures
            final(self).wf(),
            final(self).alloc_view() == old(self).alloc_view(),
            final(self).is_data(ppn as int),
            final(self).data_at(ppn as int).len() == 4096,
            forall|k: int|
                0 <= k < 4096 ==> #[trigger] final(self).data_at(ppn as int)[k] == if off <= k < off
                    + src@.len() {
                    src@[k - off]
                } else {
                    old(self).data_at(ppn as int)[k]
                },
            same_except(*old(self), *final(self), ppn as int),
    {
        let ghost pre = *self;
        proof {
            assert(pre.win_len() <= usize::MAX);
        }
        let i = (ppn - self.base) as usize;
        proof {
            assert(i as int == ppn - pre.base_spec());
        }
        let slot = &mut self.pages[i];
        let mut page = Page::Raw;
        core::mem::swap(&mut page, slot);
        match page {
            Page::Data(mut v) => {
                proof {
                    assert(v@ == pre.data_at(ppn as int));
                    assert(v@.len() == 4096);
                }
                let ghost v0 = v@;
                let n = src.len();
                let mut j: usize = 0;
                while j < n
                    invariant
                        j <= n,
                        n == src@.len(),
                        off + n <= 4096,
                        v@.len() == 4096,
                        v0.len() == 4096,
                        forall|k: int|
                            0 <= k < 4096 ==> #[trigger] v@[k] == if off <= k < off + j {
                                src@[k - off]
                            } else {
                                v0[k]
                            },
                    decreases n - j,
                {
                    let cell = &mut v[off + j];
                    *cell = src[j];
                    j = j + 1;
                }
                let mut back = Page::Data(v);
                core::mem::swap(&mut back, slot);
                proof {
                    let p = ppn as int;
                    assert(self.is_data(p));
                    assert(self.data_at(p) == v@);
                    assert forall|q: int| q != p implies #[trigger] page_same(pre, *self, q) by {
                        if pre.in_window(q) {
                            assert(q - pre.base_spec() != i as int);
                            assert(self.pages@[q - self.base_spec()] == pre.pages@[q
                                - pre.base_spec()]);
                        }
                    }
                    assert forall|t: int| #[trigger] self.is_table(t) implies self.table_at(
                        t,
                    ).len() == 512 by {
                        if t != p {
                            assert(page_same(pre, *self, t));
                        }
                    }
                    assert forall|t: int| #[trigger] self.is_data(t) implies self.data_at(t).len()
                        == 4096 by {
                        if t != p {
                            assert(page_same(pre, *self, t));
                        }
                    }
                }
            },
            _ => {
                proof {
                    assert(false);
                }
            },
        }
    }

    /// Copy of bytes `[start, end)` of data page `ppn`.
    pub fn read_data(&self, ppn: u64, start: usize, end: usize) -> (r: Vec<u8>)
        requires
            self.wf(),
            self.is_data(ppn as int),
            start <= end <= 4096,
        ensures
            r@ == self.data_at(ppn as int).subrange(start as int, end as int),
    {
        proof {
            assert(self.win_len() <= usize::MAX);
        }
        let i = (ppn - self.base) as usize;
        proof {
            assert(i as int == ppn - self.base_spec());
        }
        let mut r: Vec<u8> = Vec::new();
        match &self.pages[i] {
            Page::Data(v) => {
                proof {
                    assert(v@ == self.data_at(ppn as int));
                    assert(v@.len() == 4096);
                }
                let mut j: usize = start;
                while j < end
                    invariant
                        start <= j <= end <= 4096,
                        v@.len() == 4096,
                        v@ == self.data_at(ppn as int),
                        r@ == self.data_at(ppn as int).subrange(start as int, j as int),
                    decreases end - j,
                {
                    r.push(v[j]);
                    proof {
                        assert(r@ =~= self.data_at(ppn as int).subrange(start as int, j + 1));
                    }
                    j = j + 1;
                }
            },
            _ => {
                proof {
                    assert(false);
                }
            },
        }
        proof {
            assert(r@ =~= self.data_at(ppn as int).subrange(start as int, end as int));
        }
        r
    }
}

/// A frame has at most one role, and a role implies it lies in the window.
pub proof fn lemma_page_roles(m: PhysMem, p: int)
    ensures
        !(m.is_table(p) && m.is_data(p)),
        m.is_table(p) ==> m.in_window(p),
        m.is_data(p) ==> m.in_window(p),
{
}

} // verus!
