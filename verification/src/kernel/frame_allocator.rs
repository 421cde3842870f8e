//! Allocation of physical page frames.
use super::address::{page_ceil, page_floor, PhysAddr, PhysPageNum};
use super::config::{MEMORY_END, PAGE_SIZE};
use vstd::prelude::*;

verus! {

/// Hands out physical page numbers: first those freed, last freed first, then
/// fresh ones from `[current, end)`.
pub struct StackFrameAllocator {
    current: usize,
    end: usize,
    recycled: Vec<usize>,
}

/// `after` is `before` once it has answered an allocation with `r`: the
/// last page given back if there is one, else the next fresh page, else `None`.
pub open spec fn frame_handed_out(before: StackFrameAllocator, after: StackFrameAllocator, r: Option<PhysPageNum>) -> bool {
    &&& after.limit() == before.limit()
    &&& if before.recycled().len() > 0 {
        &&& r == Some(PhysPageNum(before.recycled().last()))
        &&& after.recycled() == before.recycled().drop_last()
        &&& after.next() == before.next()
    } else if before.next() == before.limit() {
        &&& r is None
        &&& after.recycled() == before.recycled()
        &&& after.next() == before.next()
    } else {
        &&& r == Some(PhysPageNum(before.next()))
        &&& after.recycled() == before.recycled()
        &&& after.next() == before.next() + 1
    }
}

/// `after` is `before` once page `ppn` is given back.
pub open spec fn frame_given_back(before: StackFrameAllocator, after: StackFrameAllocator, ppn: usize) -> bool {
    &&& after.recycled() == before.recycled().push(ppn)
    &&& after.next() == before.next()
    &&& after.limit() == before.limit()
}

impl StackFrameAllocator {
    /// First page number never handed out.
    pub closed spec fn next(&self) -> usize {
        self.current
    }

    /// End of the range of page numbers.
    pub closed spec fn limit(&self) -> usize {
        self.end
    }

    /// Page numbers handed out and given back, oldest first.
    pub closed spec fn recycled(&self) -> Seq<usize> {
        self.recycled@
    }

    /// How many pages can still be handed out.
    pub open spec fn available(&self) -> int {
        self.recycled().len() + self.limit() - self.next()
    }

    /// Page `p` is handed out and not given back.
    pub open spec fn in_use(&self, p: usize) -> bool {
        p < self.next() && !self.recycled().contains(p)
    }

    /// The allocator's own consistency: the fresh range is a range, and the
    /// pages given back were handed out, each once.
    pub open spec fn wf(&self) -> bool {
        &&& self.next() <= self.limit()
        &&& self.recycled().no_duplicates()
        &&& forall|i: int| 0 <= i < self.recycled().len() ==> #[trigger] self.recycled()[i] < self.next()
    }

    /// An allocator with nothing to hand out.
    pub fn new() -> (r: Self)
        ensures
            r.next() == 0,
            r.limit() == 0,
            r.recycled() == Seq::<usize>::empty(),
            r.wf(),
    {
        Self { current: 0, end: 0, recycled: Vec::new() }
    }

    /// Sets the fresh range to the pages `[l, r)`.
    pub fn init(&mut self, l: PhysPageNum, r: PhysPageNum)
        ensures
            final(self).next() == l.0,
            final(self).limit() == r.0,
            final(self).recycled() == old(self).recycled(),
    {
        self.current = l.0;
        self.end = r.0;
    }

    /// The last page given back if there is one, else the next fresh page,
    /// else `None`.
    pub fn alloc_frame(&mut self) -> (r: Option<PhysPageNum>)
        requires
            old(self).next() < usize::MAX || old(self).next() == old(self).limit(),
        ensures
            frame_handed_out(*old(self), *final(self), r),
    {
        match self.recycled.pop() {
            Some(ppn) => Some(PhysPageNum(ppn)),
            None => {
                if self.current == self.end {
                    None
                } else {
                    self.current += 1;
                    Some(PhysPageNum(self.current - 1))
                }
            },
        }
    }

    /// Takes page `ppn` back; it must have been handed out: before the fresh
    /// range and not already given back.
    pub fn dealloc(&mut self, ppn: PhysPageNum)
        requires
            ppn.0 < old(self).next(),
            !old(self).recycled().contains(ppn.0),
        ensures
            frame_given_back(*old(self), *final(self), ppn.0),
    {
        let ppn = ppn.0;
        self.recycled.push(ppn);
    }
}

/// A page frame handed out to its owner.
pub struct FrameTracker {
    pub ppn: PhysPageNum,
}

impl FrameTracker {
    /// Takes ownership of page `ppn` of `memory` and zeroes it.
    pub fn new(ppn: PhysPageNum, memory: &mut [u8]) -> (r: Self)
        requires
            ppn.0 * PAGE_SIZE + PAGE_SIZE <= old(memory)@.len(),
        ensures
            r.ppn == ppn,
            final(memory)@.len() == old(memory)@.len(),
            forall|k: int|
                0 <= k < final(memory)@.len() ==> #[trigger] final(memory)@[k] == if ppn.0 * PAGE_SIZE <= k
                    < ppn.0 * PAGE_SIZE + PAGE_SIZE {
                    0u8
                } else {
                    old(memory)@[k]
                },
    {
        let _len = memory.len();
        let start = ppn.0 * PAGE_SIZE;
        let mut i: usize = 0;
        while i < PAGE_SIZE
            invariant
                start == ppn.0 * PAGE_SIZE,
                start + PAGE_SIZE <= memory@.len(),
                memory@.len() == old(memory)@.len(),
                i <= PAGE_SIZE,
                forall|k: int|
                    0 <= k < memory@.len() ==> #[trigger] memory@[k] == if start <= k < start + i {
                        0u8
                    } else {
                        old(memory)@[k]
                    },
            decreases PAGE_SIZE - i,
        {
            memory[start + i] = 0;
            i += 1;
        }
        Self { ppn }
    }
}

/// Hands out a page frame of `memory`, zeroed, or `None` when there is none left.
pub fn frame_alloc(allocator: &mut StackFrameAllocator, memory: &mut [u8]) -> (r: Option<FrameTracker>)
    requires
        old(allocator).wf(),
        old(allocator).limit() * PAGE_SIZE <= old(memory)@.len(),
    ensures
        final(allocator).wf(),
        final(allocator).limit() == old(allocator).limit(),
        final(memory)@.len() == old(memory)@.len(),
        frame_handed_out(
            *old(allocator),
            *final(allocator),
            match r {
                Some(frame) => Some(frame.ppn),
                None => None,
            },
        ),
        match r {
            Some(frame) => {
                &&& final(allocator).available() == old(allocator).available() - 1
                &&& !old(allocator).in_use(frame.ppn.0)
                &&& final(allocator).in_use(frame.ppn.0)
                &&& forall|p: usize| p != frame.ppn.0 ==> (#[trigger] final(allocator).in_use(p) <==> old(allocator).in_use(p))
                &&& forall|k: int|
                    0 <= k < final(memory)@.len() ==> #[trigger] final(memory)@[k] == if frame.ppn.0 * PAGE_SIZE
                        <= k < frame.ppn.0 * PAGE_SIZE + PAGE_SIZE {
                        0u8
                    } else {
                        old(memory)@[k]
                    }
            },
            None => {
                &&& old(allocator).recycled().len() == 0
                &&& old(allocator).next() == old(allocator).limit()
                &&& final(memory)@ == old(memory)@
            },
        },
{
    let ppn = allocator.alloc_frame();
    match ppn {
        Some(p) => {
            proof {
                let rec = old(allocator).recycled();
                if rec.len() > 0 {
                    assert(rec.last() == rec[rec.len() - 1]);
                    assert forall|q: usize| q != p.0 implies (#[trigger] allocator.in_use(q) <==> old(allocator).in_use(q)) by {
                        if rec.contains(q) {
                            let j = choose|j: int| 0 <= j < rec.len() && rec[j] == q;
                            assert(j != rec.len() - 1);
                            assert(allocator.recycled()[j] == q);
                        }
                        if allocator.recycled().contains(q) {
                            let j = choose|j: int| 0 <= j < allocator.recycled().len() && allocator.recycled()[j] == q;
                            assert(rec[j] == q);
                        }
                    }
                    assert(!allocator.recycled().contains(p.0)) by {
                        if allocator.recycled().contains(p.0) {
                            let j = choose|j: int| 0 <= j < allocator.recycled().len() && allocator.recycled()[j] == p.0;
                            assert(rec[j] == rec[rec.len() - 1]);
                        }
                    }
                    assert(allocator.recycled().no_duplicates());
                }
                let lim = old(allocator).limit();
                assert(p.0 < lim);
                assert(p.0 * PAGE_SIZE + PAGE_SIZE <= lim * PAGE_SIZE) by (nonlinear_arith)
                    requires
                        p.0 < lim,
                ;
            }
            Some(FrameTracker::new(p, memory))
        },
        None => None,
    }
}

/// Gives page `ppn` back to `allocator`; it must be in use.
pub fn frame_dealloc(allocator: &mut StackFrameAllocator, ppn: PhysPageNum)
    requires
        old(allocator).wf(),
        old(allocator).in_use(ppn.0),
    ensures
        final(allocator).wf(),
        final(allocator).limit() == old(allocator).limit(),
        !final(allocator).in_use(ppn.0),
        forall|p: usize| p != ppn.0 ==> (#[trigger] final(allocator).in_use(p) <==> old(allocator).in_use(p)),
        frame_given_back(*old(allocator), *final(allocator), ppn.0),
{
    allocator.dealloc(ppn);
    proof {
        let rec = old(allocator).recycled();
        assert(allocator.recycled()[rec.len() as int] == ppn.0);
        assert forall|p: usize| p != ppn.0 implies (#[trigger] allocator.in_use(p) <==> old(allocator).in_use(p)) by {
            if allocator.recycled().contains(p) {
                let j = choose|j: int| 0 <= j < allocator.recycled().len() && allocator.recycled()[j] == p;
                assert(rec[j] == p);
            }
            if rec.contains(p) {
                let j = choose|j: int| 0 <= j < rec.len() && rec[j] == p;
                assert(allocator.recycled()[j] == p);
            }
        }
    }
}

/// Gives `allocator` the pages from the end of the kernel image, at physical
/// address `kernel_end`, to the end of memory.
pub fn init_frame_allocator(allocator: &mut StackFrameAllocator, kernel_end: usize)
    ensures
        final(allocator).next() == page_ceil(kernel_end as int),
        final(allocator).limit() == page_floor(MEMORY_END as int),
        final(allocator).recycled() == old(allocator).recycled(),
{
    allocator.init(PhysAddr(kernel_end).ceil(), PhysAddr(MEMORY_END).floor());
}

/// A page given back is the next one handed out, and handing it out puts the
/// allocator back as it was before.
pub proof fn law_dealloc_then_alloc(
    a0: StackFrameAllocator,
    a1: StackFrameAllocator,
    a2: StackFrameAllocator,
    ppn: usize,
    r: Option<PhysPageNum>,
)
    requires
        frame_given_back(a0, a1, ppn),
        frame_handed_out(a1, a2, r),
    ensures
        r == Some(PhysPageNum(ppn)),
        a2.recycled() == a0.recycled(),
        a2.next() == a0.next(),
        a2.limit() == a0.limit(),
{
    assert(a1.recycled().drop_last() =~= a0.recycled());
}

} // verus!
