//! The state of a user thread saved on a trap.
use vstd::prelude::*;

verus! {

/// Bit of `sstatus` giving the privilege level before the trap: clear for user mode.
pub const SSTATUS_SPP: usize = 0x100;

/// What a trap saves of a user thread, and where the kernel side of the trap
/// handler lives.
#[derive(Clone, Copy)]
pub struct TrapContext {
    /// The general registers `x0`..`x31`.
    pub x: [usize; 32],
    /// The status register, as its bits.
    pub sstatus: usize,
    /// Where the thread resumes.
    pub sepc: usize,
    /// The kernel's page table token.
    pub kernel_satp: usize,
    /// The top of the thread's kernel stack.
    pub kernel_sp: usize,
    /// The address of the trap handler.
    pub trap_handler: usize,
}

impl TrapContext {
    /// Sets the stack pointer, `x2`.
    pub fn set_sp(&mut self, sp: usize)
        ensures
            final(self).x@ == old(self).x@.update(2, sp),
            final(self).sstatus == old(self).sstatus,
            final(self).sepc == old(self).sepc,
            final(self).kernel_satp == old(self).kernel_satp,
            final(self).kernel_sp == old(self).kernel_sp,
            final(self).trap_handler == old(self).trap_handler,
    {
        self.x[2] = sp;
    }

    /// The context a thread starts from: at `entry`, on the user stack `sp`,
    /// in user mode (the status `sstatus` with its previous-privilege bit
    /// cleared), every other register zero.
    pub fn app_init_context(
        entry: usize,
        sp: usize,
        kernel_satp: usize,
        kernel_sp: usize,
        trap_handler: usize,
        sstatus: usize,
    ) -> (r: Self)
        ensures
            forall|i: int| 0 <= i < 32 ==> #[trigger] r.x@[i] == if i == 2 {
                sp
            } else {
                0
            },
            r.sstatus == sstatus & !SSTATUS_SPP,
            r.sepc == entry,
            r.kernel_satp == kernel_satp,
            r.kernel_sp == kernel_sp,
            r.trap_handler == trap_handler,
    {
        let mut cx = Self {
            x: [0usize; 32],
            sstatus: sstatus & !SSTATUS_SPP,
            sepc: entry,
            kernel_satp,
            kernel_sp,
            trap_handler,
        };
        cx.set_sp(sp);
        cx
    }
}

} // verus!
