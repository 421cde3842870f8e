//! Memory layout constants of the kernel.
use vstd::prelude::*;

verus! {

pub const USER_STACK_SIZE: usize = 4096 * 2;

pub const KERNEL_STACK_SIZE: usize = 4096 * 2;

pub const MAX_APP_NUM: usize = 4;

pub const APP_BASE_ADDRESS: usize = 0x80400000;

pub const APP_SIZE_LIMIT: usize = 0x20000;

pub const KERNEL_HEAP_SIZE: usize = 0x30_0000;

pub const PAGE_SIZE: usize = 0x1000;

pub const PAGE_SIZE_BITS: usize = 0xc;

pub const VA_WIDTH_SV39: usize = 39;

pub const PA_WIDTH_SV39: usize = 56;

pub const PPN_WIDTH_SV39: usize = 44;

pub const VPN_WIDTH_SV39: usize = 27;

/// End of physical memory on the QEMU `virt` board.
pub const MEMORY_END: usize = 0x80800000;

/// Timer frequency of the QEMU `virt` board, in Hz.
pub const CLOCK_FREQ: usize = 12500000;

/// Virtual address of the trampoline page: the last page of the address space.
pub const TRAMPOLINE: usize = usize::MAX - PAGE_SIZE + 1;

/// The trap context sits in the page just below the trampoline.
pub const TRAP_CONTEXT: usize = TRAMPOLINE - PAGE_SIZE;

/// The trap context of thread 0; those of later threads lie below it, a page each.
pub const TRAP_CONTEXT_BASE: usize = TRAMPOLINE - PAGE_SIZE;

/// The kernel stack of application `app_id`, as `(bottom, top)`.
///
/// Stacks are laid out downwards from the trampoline, each followed by a
/// guard page of `PAGE_SIZE` bytes.
pub fn kernel_stack_position(app_id: usize) -> (r: (usize, usize))
    requires
        app_id * (KERNEL_STACK_SIZE + PAGE_SIZE) + KERNEL_STACK_SIZE <= TRAMPOLINE,
    ensures
        r.1 == TRAMPOLINE - app_id * (KERNEL_STACK_SIZE + PAGE_SIZE),
        r.0 == r.1 - KERNEL_STACK_SIZE,
{
    let top = TRAMPOLINE - app_id * (KERNEL_STACK_SIZE + PAGE_SIZE);
    let bottom = top - KERNEL_STACK_SIZE;
    (bottom, top)
}

} // verus!
