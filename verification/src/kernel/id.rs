//! Identifiers: process ids, kernel stack ids and thread ids, and where the
//! per-thread areas of an address space lie.
use super::address::{page_ceil, page_floor, PhysPageNum, VirtAddr};
use super::config::{kernel_stack_position, KERNEL_STACK_SIZE, PAGE_SIZE, TRAMPOLINE, TRAP_CONTEXT_BASE, USER_STACK_SIZE};
use super::frame_allocator::StackFrameAllocator;
use super::memory_set::{MapPermission, MapType, MemorySet, MAP_R, MAP_U, MAP_W};
use super::page_table::{
    frame_of, lemma_tables_needed_nonneg, leaf_value, mapping, page_walkable, present1, present2, present_after, pte_bits, slot_taken,
    tables_needed, PTE_V,
};
use vstd::prelude::*;

verus! {

/// Hands out small numbers: the last one given back first, else the next
/// never used.
pub struct RecycleAllocator {
    current: usize,
    recycled: Vec<usize>,
}

/// `after` is `before` once it has handed out `r`: the last number given
/// back, else the next never used.
pub open spec fn handed_out(before: RecycleAllocator, after: RecycleAllocator, r: usize) -> bool {
    if before.recycled().len() > 0 {
        &&& r == before.recycled().last()
        &&& after.recycled() == before.recycled().drop_last()
        &&& after.next() == before.next()
    } else {
        &&& r == before.next()
        &&& after.next() == before.next() + 1
        &&& after.recycled() == before.recycled()
    }
}

/// `after` is `before` once `id` is given back.
pub open spec fn gave_back(before: RecycleAllocator, after: RecycleAllocator, id: usize) -> bool {
    &&& after.recycled() == before.recycled().push(id)
    &&& after.next() == before.next()
}

impl RecycleAllocator {
    /// First number never handed out.
    pub closed spec fn next(&self) -> usize {
        self.current
    }

    /// Numbers given back, oldest first.
    pub closed spec fn recycled(&self) -> Seq<usize> {
        self.recycled@
    }

    /// Number `id` is handed out and not given back.
    pub open spec fn in_use(&self, id: usize) -> bool {
        id < self.next() && !self.recycled().contains(id)
    }

    /// The numbers given back were handed out, each once.
    pub open spec fn wf(&self) -> bool {
        &&& self.recycled().no_duplicates()
        &&& forall|i: int| 0 <= i < self.recycled().len() ==> #[trigger] self.recycled()[i] < self.next()
    }

    /// An allocator that has handed nothing out.
    pub fn new() -> (r: Self)
        ensures
            r.wf(),
            r.next() == 0,
            r.recycled() == Seq::<usize>::empty(),
    {
        RecycleAllocator { current: 0, recycled: Vec::new() }
    }

    /// Hands out a number that is not in use: the last one given back, else
    /// the next never used.
    pub fn alloc_id(&mut self) -> (r: usize)
        requires
            old(self).wf(),
            old(self).recycled().len() == 0 ==> old(self).next() < usize::MAX,
        ensures
            final(self).wf(),
            !old(self).in_use(r),
            final(self).in_use(r),
            forall|id: usize| id != r ==> (#[trigger] final(self).in_use(id) <==> old(self).in_use(id)),
            handed_out(*old(self), *final(self), r),
    {
        let ghost rec = self.recycled@;
        if let Some(id) = self.recycled.pop() {
            proof {
                assert(rec.last() == rec[rec.len() - 1]);
                assert forall|q: usize| q != id implies (#[trigger] self.in_use(q) <==> old(self).in_use(q)) by {
                    if rec.contains(q) {
                        let j = choose|j: int| 0 <= j < rec.len() && rec[j] == q;
                        assert(self.recycled()[j] == q);
                    }
                    if self.recycled().contains(q) {
                        let j = choose|j: int| 0 <= j < self.recycled().len() && self.recycled()[j] == q;
                        assert(rec[j] == q);
                    }
                }
                assert(!self.recycled().contains(id)) by {
                    if self.recycled().contains(id) {
                        let j = choose|j: int| 0 <= j < self.recycled().len() && self.recycled()[j] == id;
                        assert(rec[j] == rec[rec.len() - 1]);
                    }
                }
            }
            id
        } else {
            self.current += 1;
            self.current - 1
        }
    }

    /// Takes back number `id`, which must be in use.
    pub fn dealloc(&mut self, id: usize)
        requires
            old(self).wf(),
            old(self).in_use(id),
        ensures
            final(self).wf(),
            !final(self).in_use(id),
            forall|q: usize| q != id ==> (#[trigger] final(self).in_use(q) <==> old(self).in_use(q)),
            gave_back(*old(self), *final(self), id),
    {
        let ghost rec = self.recycled@;
        self.recycled.push(id);
        proof {
            assert(self.recycled()[rec.len() as int] == id);
            assert forall|q: usize| q != id implies (#[trigger] self.in_use(q) <==> old(self).in_use(q)) by {
                if self.recycled().contains(q) {
                    let j = choose|j: int| 0 <= j < self.recycled().len() && self.recycled()[j] == q;
                    assert(rec[j] == q);
                }
                if rec.contains(q) {
                    let j = choose|j: int| 0 <= j < rec.len() && rec[j] == q;
                    assert(self.recycled()[j] == q);
                }
            }
        }
    }
}

/// The id of the first process, whose end powers the machine off.
pub const IDLE_PID: usize = 0;

/// A process id.
pub struct PidHandle(pub usize);

/// Hands out a process id from `allocator`.
pub fn pid_alloc(allocator: &mut RecycleAllocator) -> (r: PidHandle)
    requires
        old(allocator).wf(),
        old(allocator).recycled().len() == 0 ==> old(allocator).next() < usize::MAX,
    ensures
        final(allocator).wf(),
        !old(allocator).in_use(r.0),
        final(allocator).in_use(r.0),
        forall|id: usize| id != r.0 ==> (#[trigger] final(allocator).in_use(id) <==> old(allocator).in_use(id)),
        handed_out(*old(allocator), *final(allocator), r.0),
{
    PidHandle(allocator.alloc_id())
}

/// Hands out process ids: the last one given back first, else the next never used.
pub struct PidAllocator {
    current: usize,
    recycled: Vec<usize>,
}

impl PidAllocator {
    /// First process id never handed out.
    pub closed spec fn next(&self) -> usize {
        self.current
    }

    /// Process ids given back, oldest first.
    pub closed spec fn recycled(&self) -> Seq<usize> {
        self.recycled@
    }

    /// An allocator that has handed nothing out.
    pub fn new() -> (r: Self)
        ensures
            r.next() == 0,
            r.recycled() == Seq::<usize>::empty(),
    {
        PidAllocator { current: 0, recycled: Vec::new() }
    }

    /// Hands out the last process id given back, else the next never used.
    pub fn alloc_pid(&mut self) -> (r: PidHandle)
        requires
            old(self).recycled().len() == 0 ==> old(self).next() < usize::MAX,
        ensures
            old(self).recycled().len() > 0 ==> r.0 == old(self).recycled().last() && final(self).recycled()
                == old(self).recycled().drop_last() && final(self).next() == old(self).next(),
            old(self).recycled().len() == 0 ==> r.0 == old(self).next() && final(self).next() == old(self).next()
                + 1 && final(self).recycled() == old(self).recycled(),
    {
        if let Some(pid) = self.recycled.pop() {
            PidHandle(pid)
        } else {
            self.current += 1;
            PidHandle(self.current - 1)
        }
    }

    /// Takes back process id `pid`, which must have been handed out and not
    /// given back yet.
    pub fn dealloc(&mut self, pid: usize)
        requires
            pid < old(self).next(),
            !old(self).recycled().contains(pid),
        ensures
            final(self).recycled() == old(self).recycled().push(pid),
            final(self).next() == old(self).next(),
    {
        self.recycled.push(pid);
    }
}

/// Where the trap context of thread `tid` starts: one page per thread, downwards
/// from `TRAP_CONTEXT_BASE`.
pub fn trap_cx_bottom_from_tid(tid: usize) -> (r: usize)
    requires
        tid * PAGE_SIZE <= TRAP_CONTEXT_BASE,
    ensures
        r == TRAP_CONTEXT_BASE - tid * PAGE_SIZE,
{
    TRAP_CONTEXT_BASE - tid * PAGE_SIZE
}

/// Where the user stack of thread `tid` starts: each thread's stack follows a
/// guard page, upwards from `ustack_base`.
pub fn ustack_bottom_from_tid(ustack_base: usize, tid: usize) -> (r: usize)
    requires
        ustack_base + tid * (PAGE_SIZE + USER_STACK_SIZE) <= usize::MAX,
    ensures
        r == ustack_base + tid * (PAGE_SIZE + USER_STACK_SIZE),
{
    ustack_base + tid * (PAGE_SIZE + USER_STACK_SIZE)
}

/// The pages that hold `[start, start + len)`.
pub open spec fn pages_of(start: int, len: int) -> (int, int) {
    (page_floor(start), page_ceil(start + len))
}

/// The frames a framed area over the pages `r` takes beyond its tables.
pub open spec fn framed_pages(r: (int, int)) -> int {
    if r.0 < r.1 {
        r.1 - r.0
    } else {
        0
    }
}

/// The resources of a thread in its process's address space: its user stack
/// and its trap context, both found from its thread id.
pub struct TaskUserRes {
    pub tid: usize,
    pub ustack_base: usize,
}

impl TaskUserRes {
    /// The thread's addresses fit in the address space.
    pub open spec fn fits(&self) -> bool {
        &&& self.tid * PAGE_SIZE <= TRAP_CONTEXT_BASE
        &&& self.ustack_base + self.tid * (PAGE_SIZE + USER_STACK_SIZE) + USER_STACK_SIZE <= usize::MAX
    }

    /// Where the thread's user stack starts.
    pub open spec fn spec_ustack_bottom(&self) -> int {
        self.ustack_base + self.tid * (PAGE_SIZE + USER_STACK_SIZE)
    }

    /// Where the thread's trap context starts.
    pub open spec fn spec_trap_cx_bottom(&self) -> int {
        TRAP_CONTEXT_BASE - self.tid * PAGE_SIZE
    }

    /// The pages of the user stack.
    pub open spec fn ustack_pages(&self) -> (int, int) {
        pages_of(self.spec_ustack_bottom(), USER_STACK_SIZE as int)
    }

    /// The pages of the trap context.
    pub open spec fn trap_cx_pages(&self) -> (int, int) {
        pages_of(self.spec_trap_cx_bottom(), PAGE_SIZE as int)
    }

    /// Maps the thread's user stack (readable, writable, user) and then its
    /// trap context (readable, writable) in `memory_set`, each page with a
    /// zeroed frame of its own; none of those pages may be mapped yet.
    pub fn alloc_user_res(&self, memory_set: &mut MemorySet, allocator: &mut StackFrameAllocator, mem: &mut [u8])
        requires
            self.fits(),
            old(memory_set).page_table.wf(old(mem)@, *old(allocator)),
            forall|w: int|
                self.ustack_pages().0 <= w < self.ustack_pages().1 ==> #[trigger] mapping(
                    old(mem)@,
                    old(memory_set).page_table.root(),
                    w,
                ) is None,
            forall|w: int|
                self.trap_cx_pages().0 <= w < self.trap_cx_pages().1 ==> #[trigger] mapping(
                    old(mem)@,
                    old(memory_set).page_table.root(),
                    w,
                ) is None,
            forall|w: int|
                self.trap_cx_pages().0 <= w < self.trap_cx_pages().1 ==> !#[trigger] slot_taken(
                    self.ustack_pages().0,
                    self.ustack_pages().1,
                    w,
                ),
            old(allocator).available() >= tables_needed(
                present1(old(mem)@, old(memory_set).page_table.root()),
                present2(old(mem)@, old(memory_set).page_table.root()),
                self.ustack_pages().0,
                self.ustack_pages().1,
            ) + framed_pages(self.ustack_pages()) + tables_needed(
                present_after(
                    present1(old(mem)@, old(memory_set).page_table.root()),
                    present2(old(mem)@, old(memory_set).page_table.root()),
                    self.ustack_pages().0,
                    self.ustack_pages().1,
                ).0,
                present_after(
                    present1(old(mem)@, old(memory_set).page_table.root()),
                    present2(old(mem)@, old(memory_set).page_table.root()),
                    self.ustack_pages().0,
                    self.ustack_pages().1,
                ).1,
                self.trap_cx_pages().0,
                self.trap_cx_pages().1,
            ) + framed_pages(self.trap_cx_pages()),
        ensures
            final(memory_set).page_table.wf(final(mem)@, *final(allocator)),
            final(memory_set).page_table.root() == old(memory_set).page_table.root(),
            final(allocator).limit() == old(allocator).limit(),
            final(mem)@.len() == old(mem)@.len(),
            final(memory_set).areas@.len() == old(memory_set).areas@.len() + 2,
            forall|w: int|
                self.ustack_pages().0 <= w < self.ustack_pages().1 ==> #[trigger] mapping(
                    final(mem)@,
                    final(memory_set).page_table.root(),
                    w,
                ) == Some(
                    pte_bits(
                        final(memory_set).areas@[old(memory_set).areas@.len() as int].target(0, w) as u64,
                        MAP_R | MAP_W | MAP_U | PTE_V,
                    ),
                ),
            forall|w: int|
                self.trap_cx_pages().0 <= w < self.trap_cx_pages().1 ==> #[trigger] mapping(
                    final(mem)@,
                    final(memory_set).page_table.root(),
                    w,
                ) == Some(
                    pte_bits(
                        final(memory_set).areas@[old(memory_set).areas@.len() + 1int].target(0, w) as u64,
                        MAP_R | MAP_W | PTE_V,
                    ),
                ),
            forall|w: int|
                0 <= w && !slot_taken(self.ustack_pages().0, self.ustack_pages().1, w) && !slot_taken(
                    self.trap_cx_pages().0,
                    self.trap_cx_pages().1,
                    w,
                ) ==> #[trigger] mapping(final(mem)@, final(memory_set).page_table.root(), w) == mapping(
                    old(mem)@,
                    old(memory_set).page_table.root(),
                    w,
                ),
    {
        let ghost m0 = mem@;
        let ghost n = memory_set.areas@.len() as int;
        let ghost root = memory_set.page_table.root();
        let ustack_bottom = ustack_bottom_from_tid(self.ustack_base, self.tid);
        let ustack_top = ustack_bottom + USER_STACK_SIZE;
        proof {
            lemma_pages_of_len(ustack_bottom as int, USER_STACK_SIZE as int);
            let us = self.ustack_pages();
            let q = present_after(present1(m0, root), present2(m0, root), us.0, us.1);
            lemma_tables_needed_nonneg(q.0, q.1, self.trap_cx_pages().0, self.trap_cx_pages().1);
        }
        memory_set.insert_framed_area(
            VirtAddr(ustack_bottom),
            VirtAddr(ustack_top),
            MapPermission { bits: MAP_R | MAP_W | MAP_U },
            allocator,
            mem,
        );
        let ghost m1 = mem@;
        let ghost ms1 = *memory_set;
        let trap_cx_bottom = trap_cx_bottom_from_tid(self.tid);
        let trap_cx_top = trap_cx_bottom + PAGE_SIZE;
        proof {
            lemma_pages_of_len(trap_cx_bottom as int, PAGE_SIZE as int);
            assert forall|w: int| self.trap_cx_pages().0 <= w < self.trap_cx_pages().1 implies #[trigger] mapping(
                m1,
                root,
                w,
            ) is None by {
                assert(mapping(m1, root, w) == mapping(m0, root, w));
            }
        }
        memory_set.insert_framed_area(
            VirtAddr(trap_cx_bottom),
            VirtAddr(trap_cx_top),
            MapPermission { bits: MAP_R | MAP_W },
            allocator,
            mem,
        );
        proof {
            let us = self.ustack_pages();
            let tp = self.trap_cx_pages();
            assert(memory_set.areas@[n] == ms1.areas@[n]) by {
                assert(memory_set.areas@.drop_last()[n] == ms1.areas@[n]);
            }
            assert(memory_set.areas@[n + 1] == memory_set.areas@.last());
            assert forall|w: int| us.0 <= w < us.1 implies !#[trigger] slot_taken(tp.0, tp.1, w) by {
                lemma_slots_apart_sym(us, tp, w);
            }
            assert forall|w: int| us.0 <= w < us.1 implies #[trigger] mapping(mem@, root, w) == Some(
                pte_bits(memory_set.areas@[n].target(0, w) as u64, MAP_R | MAP_W | MAP_U | PTE_V),
            ) by {
                assert(!slot_taken(tp.0, tp.1, w));
                assert(mapping(mem@, root, w) == mapping(m1, root, w));
            }
            assert forall|w: int| 0 <= w && !slot_taken(us.0, us.1, w) && !slot_taken(tp.0, tp.1, w) implies #[trigger] mapping(
                mem@,
                root,
                w,
            ) == mapping(m0, root, w) by {
                assert(mapping(mem@, root, w) == mapping(m1, root, w));
                assert(mapping(m1, root, w) == mapping(m0, root, w));
            }
        }
    }

    /// Where the thread's trap context starts, in its address space.
    pub fn trap_cx_user_va(&self) -> (r: usize)
        requires
            self.tid * PAGE_SIZE <= TRAP_CONTEXT_BASE,
        ensures
            r == self.spec_trap_cx_bottom(),
    {
        trap_cx_bottom_from_tid(self.tid)
    }

    /// The page that holds the thread's trap context, by the page table of
    /// `memory_set`.
    pub fn trap_cx_ppn(&self, memory_set: &MemorySet, mem: &[u8]) -> (r: PhysPageNum)
        requires
            self.tid * PAGE_SIZE <= TRAP_CONTEXT_BASE,
            page_walkable(mem@, memory_set.page_table.root(), page_floor(self.spec_trap_cx_bottom())),
        ensures
            r.0 == frame_of(mem@, memory_set.page_table.root(), page_floor(self.spec_trap_cx_bottom())),
    {
        let va = VirtAddr(trap_cx_bottom_from_tid(self.tid));
        match memory_set.page_table.translate(va.floor(), mem) {
            Some(pte) => pte.ppn(),
            None => {
                proof {
                    assert(false);
                }
                PhysPageNum(0)
            },
        }
    }

    /// Where the user stacks of the process start.
    pub fn ustack_base(&self) -> (r: usize)
        ensures
            r == self.ustack_base,
    {
        self.ustack_base
    }

    /// The top of the thread's user stack.
    pub fn ustack_top(&self) -> (r: usize)
        requires
            self.fits(),
        ensures
            r == self.spec_ustack_bottom() + USER_STACK_SIZE,
    {
        ustack_bottom_from_tid(self.ustack_base, self.tid) + USER_STACK_SIZE
    }
}

/// When no page of `b` shares its entries with a page of `a`, no page of `a`
/// shares them with a page of `b`.
proof fn lemma_slots_apart_sym(a: (int, int), b: (int, int), w: int)
    requires
        forall|u: int| b.0 <= u < b.1 ==> !#[trigger] slot_taken(a.0, a.1, u),
        a.0 <= w < a.1,
    ensures
        !slot_taken(b.0, b.1, w),
{
    reveal(slot_taken);
    if slot_taken(b.0, b.1, w) {
        let u = choose|u: int| b.0 <= u < b.1 && #[trigger] super::page_table::same_slot(u, w);
        assert(super::page_table::same_slot(w, u));
        assert(slot_taken(a.0, a.1, u));
    }
}

/// The pages of `len` bytes from `start` are at most one more than the
/// bytes fill.
proof fn lemma_pages_of_len(start: int, len: int)
    requires
        0 <= start,
        0 <= len,
    ensures
        pages_of(start, len).1 - pages_of(start, len).0 <= len / PAGE_SIZE as int + 2,
        0 <= pages_of(start, len).0 <= pages_of(start, len).1,
{
    assert((start + len + 4095) / 4096 - start / 4096 <= len / 4096 + 2 && 0 <= start / 4096 <= (start + len
        + 4095) / 4096) by (nonlinear_arith)
        requires
            0 <= start,
            0 <= len,
    ;
}

/// A kernel stack, by its id.
pub struct KernelStack(pub usize);

impl KernelStack {
    /// The top of the stack.
    pub fn get_top(&self) -> (r: usize)
        requires
            self.0 * (KERNEL_STACK_SIZE + PAGE_SIZE) + KERNEL_STACK_SIZE <= TRAMPOLINE,
        ensures
            r == TRAMPOLINE - self.0 * (KERNEL_STACK_SIZE + PAGE_SIZE),
    {
        let (_, top) = kernel_stack_position(self.0);
        top
    }
}

impl RecycleAllocator {
    /// The number `alloc_id` hands out next.
    pub open spec fn peek(&self) -> usize {
        if self.recycled().len() > 0 {
            self.recycled().last()
        } else {
            self.next()
        }
    }
}

/// The pages of the kernel stack of id `id`.
pub open spec fn kstack_pages(id: usize) -> (int, int) {
    let top = TRAMPOLINE - id * (KERNEL_STACK_SIZE + PAGE_SIZE);
    (page_floor(top - KERNEL_STACK_SIZE), page_ceil(top))
}

/// Takes a kernel stack id from `kstack_allocator` and maps that stack,
/// readable and writable, in `kernel_space`, each page with a zeroed frame of
/// its own; its pages may not be mapped yet.
pub fn kstack_alloc(
    kstack_allocator: &mut RecycleAllocator,
    kernel_space: &mut MemorySet,
    allocator: &mut StackFrameAllocator,
    mem: &mut [u8],
) -> (r: KernelStack)
    requires
        old(kstack_allocator).wf(),
        old(kstack_allocator).recycled().len() == 0 ==> old(kstack_allocator).next() < usize::MAX,
        old(kstack_allocator).peek() * (KERNEL_STACK_SIZE + PAGE_SIZE) + KERNEL_STACK_SIZE <= TRAMPOLINE,
        old(kernel_space).page_table.wf(old(mem)@, *old(allocator)),
        forall|w: int|
            kstack_pages(old(kstack_allocator).peek()).0 <= w < kstack_pages(old(kstack_allocator).peek()).1
                ==> #[trigger] mapping(old(mem)@, old(kernel_space).page_table.root(), w) is None,
        old(allocator).available() >= tables_needed(
            present1(old(mem)@, old(kernel_space).page_table.root()),
            present2(old(mem)@, old(kernel_space).page_table.root()),
            kstack_pages(old(kstack_allocator).peek()).0,
            kstack_pages(old(kstack_allocator).peek()).1,
        ) + framed_pages(kstack_pages(old(kstack_allocator).peek())),
    ensures
        r.0 == old(kstack_allocator).peek(),
        !old(kstack_allocator).in_use(r.0),
        final(kstack_allocator).in_use(r.0),
        final(kstack_allocator).wf(),
        final(kernel_space).page_table.wf(final(mem)@, *final(allocator)),
        final(kernel_space).page_table.root() == old(kernel_space).page_table.root(),
        final(kernel_space).areas@.len() == old(kernel_space).areas@.len() + 1,
        forall|w: int|
            kstack_pages(r.0).0 <= w < kstack_pages(r.0).1 ==> #[trigger] mapping(
                final(mem)@,
                final(kernel_space).page_table.root(),
                w,
            ) == Some(pte_bits(final(kernel_space).areas@.last().target(0, w) as u64, MAP_R | MAP_W | PTE_V)),
        forall|w: int|
            0 <= w && !slot_taken(kstack_pages(r.0).0, kstack_pages(r.0).1, w) ==> #[trigger] mapping(
                final(mem)@,
                final(kernel_space).page_table.root(),
                w,
            ) == mapping(old(mem)@, old(kernel_space).page_table.root(), w),
{
    let kstack_id = kstack_allocator.alloc_id();
    let (kstack_bottom, kstack_top) = kernel_stack_position(kstack_id);
    proof {
        lemma_pages_of_len(kstack_bottom as int, KERNEL_STACK_SIZE as int);
    }
    kernel_space.insert_framed_area(
        VirtAddr(kstack_bottom),
        VirtAddr(kstack_top),
        MapPermission { bits: MAP_R | MAP_W },
        allocator,
        mem,
    );
    KernelStack(kstack_id)
}

/// A number that is given back is the next one handed out, and handing it
/// out puts the allocator back as it was before.
pub proof fn law_recycle_order(a0: RecycleAllocator, a1: RecycleAllocator, a2: RecycleAllocator, id: usize, r: usize)
    requires
        gave_back(a0, a1, id),
        handed_out(a1, a2, r),
    ensures
        r == id,
        a2.recycled() == a0.recycled(),
        a2.next() == a0.next(),
{
    assert(a1.recycled().drop_last() =~= a0.recycled());
}

} // verus!
