//! The saved registers of a task switched out.
use vstd::prelude::*;

verus! {

/// What a task switch saves: the return address, the stack pointer and the
/// callee-saved registers `s0`..`s11`.
#[derive(Clone, Copy)]
pub struct TaskContext {
    pub ra: usize,
    pub sp: usize,
    pub s: [usize; 12],
}

impl TaskContext {
    /// A context with every register zero.
    pub fn zero_init() -> (r: Self)
        ensures
            r.ra == 0,
            r.sp == 0,
            forall|i: int| 0 <= i < 12 ==> #[trigger] r.s@[i] == 0,
    {
        Self { ra: 0, sp: 0, s: [0usize; 12] }
    }

    /// Sets register `s{id}`.
    pub fn set_s(&mut self, id: usize, value: usize)
        requires
            id < 12,
        ensures
            final(self).ra == old(self).ra,
            final(self).sp == old(self).sp,
            final(self).s@ == old(self).s@.update(id as int, value),
    {
        self.s[id] = value;
    }

    /// Register `s{id}`.
    pub fn p_s(&self, id: usize) -> (r: usize)
        requires
            id < 12,
        ensures
            r == self.s@[id as int],
    {
        self.s[id]
    }

    /// A context that, switched to, returns to `restore` (the code that
    /// restores a trap context) on the kernel stack at `kstack_ptr`.
    pub fn goto_restore(restore: usize, kstack_ptr: usize) -> (r: Self)
        ensures
            r.ra == restore,
            r.sp == kstack_ptr,
            forall|i: int| 0 <= i < 12 ==> #[trigger] r.s@[i] == 0,
    {
        Self { ra: restore, sp: kstack_ptr, s: [0usize; 12] }
    }
}

/// Reading a register back after `set_s` gives the value set; every other
/// register keeps its value.
pub proof fn law_set_then_read(c0: TaskContext, c1: TaskContext, id: int, value: usize, other: int)
    requires
        0 <= id < 12,
        0 <= other < 12,
        c1.s@ == c0.s@.update(id, value),
    ensures
        c1.s@[id] == value,
        other != id ==> c1.s@[other] == c0.s@[other],
{
}

} // verus!
