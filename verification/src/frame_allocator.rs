//! Page-granular physical frame allocator: a bump pointer over a window of
//! page numbers plus a recycle stack.

use vstd::prelude::*;

use crate::address::PhysPageNum;

verus! {

/// Unique owner of one allocated physical page.
pub struct FrameTracker {
    pub ppn: PhysPageNum,
}

/// Stack allocator over the physical page window `[current, end)` with a
/// recycle list of returned pages.
pub struct StackFrameAllocator {
    current: u64,
    end: u64,
    recycled: Vec<u64>,
}

impl StackFrameAllocator {
    pub closed spec fn current_spec(self) -> int {
        self.current as int
    }

    pub closed spec fn end_spec(self) -> int {
        self.end as int
    }

    pub closed spec fn recycled_view(self) -> Seq<u64> {
        self.recycled@
    }

    /// Structural soundness: the recycle stack holds only pages handed out
    /// before, each at most once, and the fresh window is ordered.
    pub open spec fn wf(self) -> bool {
        &&& self.current_spec() <= self.end_spec()
        &&& forall|i: int|
            0 <= i < self.recycled_view().len() ==> (#[trigger] self.recycled_view()[i])
                < self.current_spec()
        &&& forall|i: int, j: int|
            0 <= i < j < self.recycled_view().len() ==> self.recycled_view()[i]
                != self.recycled_view()[j]
    }

    /// Whether page `p` is available: recycled, or still in the fresh window.
    pub open spec fn is_free(self, p: int) -> bool {
        (exists|i: int|
            0 <= i < self.recycled_view().len() && #[trigger] self.recycled_view()[i] as int == p)
            || self.current_spec() <= p < self.end_spec()
    }

    /// How many pages are still available.
    pub open spec fn free_count(self) -> int {
        self.recycled_view().len() + self.end_spec() - self.current_spec()
    }

    pub fn new() -> (r: StackFrameAllocator)
        ensures
            r.wf(),
            r.current_spec() == 0,
            r.end_spec() == 0,
            r.recycled_view().len() == 0,
    {
        StackFrameAllocator { current: 0, end: 0, recycled: Vec::new() }
    }

    /// Installs the usable window `[l, r)`. Called once, before any allocation.
    pub fn init(&mut self, l: PhysPageNum, r: PhysPageNum)
        requires
            l.0 <= r.0,
            old(self).recycled_view().len() == 0,
        ensures
            final(self).wf(),
            final(self).current_spec() == l.0,
            final(self).end_spec() == r.0,
            final(self).recycled_view().len() == 0,
    {
        self.current = l.0;
        self.end = r.0;
    }

    /// Whether at least `need` pages are still free.
    pub fn has_free(&self, need: u64) -> (r: bool)
        requires
            self.wf(),
        ensures
            r == (self.free_count() >= need),
    {
        let fresh = self.end - self.current;
        fresh >= need || self.recycled.len() as u64 >= need - fresh
    }

    /// Pops a recycled page if any, else takes the next fresh page; `None`
    /// exactly when nothing is free.
    pub fn alloc_frame(&mut self) -> (r: Option<PhysPageNum>)
        requires
            old(self).wf(),
        ensures
            final(self).wf(),
            final(self).end_spec() == old(self).end_spec(),
            old(self).current_spec() <= final(self).current_spec(),
            forall|i: int|
                0 <= i < final(self).recycled_view().len() ==> old(self).recycled_view().contains(
                    #[trigger] final(self).recycled_view()[i],
                ),
            // the recycle stack is served first, last in first out; only
            // when it is empty does the bump pointer advance
            old(self).recycled_view().len() > 0 ==> {
                &&& r == Some(PhysPageNum(old(self).recycled_view().last()))
                &&& final(self).recycled_view() == old(self).recycled_view().drop_last()
                &&& final(self).current_spec() == old(self).current_spec()
            },
            old(self).recycled_view().len() == 0 && old(self).current_spec() < old(
                self,
            ).end_spec() ==> {
                &&& r == Some(PhysPageNum(old(self).current_spec() as u64))
                &&& final(self).current_spec() == old(self).current_spec() + 1
                &&& final(self).recycled_view() == old(self).recycled_view()
            },
            r is None ==> {
                &&& final(self).recycled_view() == old(self).recycled_view()
                &&& final(self).current_spec() == old(self).current_spec()
                &&& old(self).free_count() == 0
            },
            r is Some ==> {
                let p = r.unwrap().0 as int;
                &&& old(self).is_free(p)
                &&& !final(self).is_free(p)
                &&& p < final(self).current_spec()
                &&& forall|q: int| q != p ==> final(self).is_free(q) == old(self).is_free(q)
                &&& final(self).free_count() == old(self).free_count() - 1
            },
    {
        let ghost pre = *self;
        match self.recycled.pop() {
            Some(ppn) => {
                proof {
                    let p = ppn as int;
                    let n = pre.recycled_view().len();
                    assert(pre.recycled_view()[n - 1] as int == p);
                    assert(pre.is_free(p));
                    // the popped page leaves the stack: no duplicate held it twice
                    assert(!self.is_free(p)) by {
                        if exists|i: int|
                            0 <= i < self.recycled_view().len()
                                && #[trigger] self.recycled_view()[i] as int == p {
                            let i = choose|i: int|
                                0 <= i < self.recycled_view().len() && #[trigger] self.recycled_view()[i] as int
                                    == p;
                            assert(pre.recycled_view()[i] == pre.recycled_view()[n - 1]);
                        }
                    }
                    assert forall|q: int| q != p implies self.is_free(q) == pre.is_free(q) by {
                        if exists|i: int|
                            0 <= i < pre.recycled_view().len()
                                && #[trigger] pre.recycled_view()[i] as int == q {
                            let i = choose|i: int|
                                0 <= i < pre.recycled_view().len()
                                    && #[trigger] pre.recycled_view()[i] as int == q;
                            assert(i < n - 1);
                            assert(self.recycled_view()[i] as int == q);
                        }
                        if exists|i: int|
                            0 <= i < self.recycled_view().len()
                                && #[trigger] self.recycled_view()[i] as int == q {
                            let i = choose|i: int|
                                0 <= i < self.recycled_view().len()
                                    && #[trigger] self.recycled_view()[i] as int == q;
                            assert(pre.recycled_view()[i] as int == q);
                        }
                    }
                }
                Some(PhysPageNum(ppn))
            },
            None => {
                if self.current == self.end {
                    None
                } else {
                    let ret = self.current;
                    self.current = self.current + 1;
                    proof {
                        assert(self.recycled_view() =~= pre.recycled_view());
                    }
                    Some(PhysPageNum(ret))
                }
            },
        }
    }

    /// Returns page `ppn` to the recycle stack. The page must have been
    /// handed out: it lies below the bump pointer and is not already free.
    pub fn dealloc(&mut self, ppn: PhysPageNum)
        requires
            old(self).wf(),
            ppn.0 < old(self).current_spec(),
            !old(self).is_free(ppn.0 as int),
        ensures
            final(self).wf(),
            final(self).current_spec() == old(self).current_spec(),
            final(self).end_spec() == old(self).end_spec(),
            final(self).recycled_view() == old(self).recycled_view().push(ppn.0),
            final(self).is_free(ppn.0 as int),
            forall|q: int|
                q != ppn.0 ==> final(self).is_free(q) == old(self).is_free(q),
            final(self).free_count() == old(self).free_count() + 1,
    {
        let ghost pre = *self;
        self.recycled.push(ppn.0);
        proof {
            assert forall|q: int| q != ppn.0 implies self.is_free(q) == pre.is_free(q) by {
                if exists|i: int|
                    0 <= i < pre.recycled_view().len()
                        && #[trigger] pre.recycled_view()[i] as int == q {
                    let i = choose|i: int|
                        0 <= i < pre.recycled_view().len()
                            && #[trigger] pre.recycled_view()[i] as int == q;
                    assert(self.recycled_view()[i] as int == q);
                }
                if exists|i: int|
                    0 <= i < self.recycled_view().len()
                        && #[trigger] self.recycled_view()[i] as int == q {
                    let i = choose|i: int|
                        0 <= i < self.recycled_view().len()
                            && #[trigger] self.recycled_view()[i] as int == q;
                    assert(i < self.recycled_view().len() - 1);
                    assert(pre.recycled_view()[i] as int == q);
                }
            }
            assert(self.is_free(ppn.0 as int)) by {
                assert(self.recycled_view()[self.recycled_view().len() - 1] as int == ppn.0);
            }
        }
    }
}

/// The transition `alloc` makes when it hands out page `p`: `p` was free
/// before and is no longer free, and no other page changes.
pub open spec fn alloc_transition(
    pre: StackFrameAllocator,
    post: StackFrameAllocator,
    p: int,
) -> bool {
    &&& pre.is_free(p)
    &&& !post.is_free(p)
    &&& forall|q: int| q != p ==> post.is_free(q) == pre.is_free(q)
}

/// Outstanding pages stay unique: two allocations with no intervening
/// release of the first never hand out the same page.
pub proof fn law_alloc_distinct(
    s0: StackFrameAllocator,
    s1: StackFrameAllocator,
    s2: StackFrameAllocator,
    p: int,
    q: int,
)
    requires
        alloc_transition(s0, s1, p),
        alloc_transition(s1, s2, q),
    ensures
        p != q,
{
}

/// Builds the physical-memory model over the page window `[l, r)`; called
/// once at boot, after the heap is up.
pub fn init_frame_allocator(l: PhysPageNum, r: PhysPageNum) -> (m: crate::phys_mem::PhysMem)
    requires
        l.0 <= r.0,
        r.0 <= 0x1000_0000_0000u64,
        r.0 - l.0 <= usize::MAX,
    ensures
        m.wf(),
        m.base_spec() == l.0,
        m.free_count() == r.0 - l.0,
        forall|p: int| m.is_free(p) <==> l.0 <= p < r.0,
{
    crate::phys_mem::PhysMem::new(l, r)
}

/// Takes one free frame, zero-filled.
pub fn frame_alloc(mem: &mut crate::phys_mem::PhysMem) -> (r: Option<FrameTracker>)
    requires
        old(mem).wf(),
    ensures
        final(mem).wf(),
        r is Some <==> old(mem).free_count() > 0,
        r is Some ==> {
            let p = r.unwrap().ppn.0 as int;
            &&& old(mem).is_free(p)
            &&& !final(mem).is_free(p)
            &&& final(mem).data_at(p) == crate::phys_mem::zero_page()
        },
{
    mem.frame_alloc()
}

/// Releases a frame back to the allocator.
pub fn frame_dealloc(mem: &mut crate::phys_mem::PhysMem, ppn: PhysPageNum)
    requires
        old(mem).wf(),
        old(mem).in_window(ppn.0 as int),
        !old(mem).is_free(ppn.0 as int),
    ensures
        final(mem).wf(),
        final(mem).is_free(ppn.0 as int),
        forall|q: int| q != ppn.0 ==> final(mem).is_free(q) == old(mem).is_free(q),
{
    mem.frame_dealloc(ppn);
}

} // verus!
