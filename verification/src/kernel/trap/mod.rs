//! Traps: the saved user state, and what the kernel does for each kind of trap.
pub mod context;

use super::syscall::{supported, syscall, Syscall};
use context::TrapContext;
use vstd::prelude::*;

verus! {

/// Why a trap happened, as far as the handlers tell causes apart.
#[derive(PartialEq, Eq, Structural, Clone, Copy)]
pub enum TrapCause {
    /// A system call from user mode.
    UserEnvCall,
    /// A store to memory that may not be written.
    StoreFault,
    /// A store to a page that is not mapped writable.
    StorePageFault,
    /// An instruction that may not run.
    IllegalInstruction,
    /// The supervisor timer fired.
    SupervisorTimer,
    /// Anything else.
    Other,
}

/// What is left to do to finish handling a trap.
#[derive(PartialEq, Eq, Structural, Clone, Copy)]
pub enum TrapAction {
    /// Serve this system call and put its result in register `a0` (`x10`).
    Syscall(Syscall),
    /// Stop: the system call number is not one the kernel serves.
    UnsupportedSyscall(usize),
    /// Set the next timer interrupt and run another task.
    Yield,
    /// Note that a timer interrupt reached the kernel and set the next one.
    KernelTimer,
    /// Stop: the application stored to a page it may not write.
    AppPageFault,
    /// Stop: the application ran an instruction it may not run.
    AppIllegalInstruction,
    /// Stop: a trap from user mode that the kernel does not handle.
    UnsupportedTrap,
    /// Stop: the kernel itself stored to a page it may not write.
    KernelPageFault,
    /// Stop: another trap in the kernel.
    KernelUnknown,
}

/// What a trap of cause `cause` from user mode, with saved state `cx`, asks for.
pub open spec fn user_action(cx: TrapContext, cause: TrapCause) -> TrapAction {
    match cause {
        TrapCause::UserEnvCall => if supported(cx.x@[17]) {
            TrapAction::Syscall(call_of(cx.x@[17], cx.x@[10], cx.x@[11], cx.x@[12]))
        } else {
            TrapAction::UnsupportedSyscall(cx.x@[17])
        },
        TrapCause::StoreFault | TrapCause::StorePageFault => TrapAction::AppPageFault,
        TrapCause::IllegalInstruction => TrapAction::AppIllegalInstruction,
        TrapCause::SupervisorTimer => TrapAction::Yield,
        TrapCause::Other => TrapAction::UnsupportedTrap,
    }
}

/// The decoded system call of number `id` with arguments `a0`, `a1`, `a2`.
pub open spec fn call_of(id: usize, a0: usize, a1: usize, a2: usize) -> Syscall {
    if id == super::syscall::SYSCALL_WRITE {
        Syscall::Write { fd: a0, buf: a1, len: a2 }
    } else if id == super::syscall::SYSCALL_EXIT {
        Syscall::Exit { exit_code: a0 as i32 }
    } else if id == super::syscall::SYSCALL_YIELD {
        Syscall::Yield
    } else {
        Syscall::GetTime
    }
}

/// What a trap of cause `cause` taken in the kernel asks for.
pub open spec fn kernel_action(cause: TrapCause) -> TrapAction {
    match cause {
        TrapCause::SupervisorTimer => TrapAction::KernelTimer,
        TrapCause::StoreFault | TrapCause::StorePageFault => TrapAction::KernelPageFault,
        _ => TrapAction::KernelUnknown,
    }
}

/// Handles a trap from user mode: a system call resumes after the `ecall`
/// instruction and is decoded from `a7` (`x17`) and `a0`..`a2`.
pub fn trap_user_handler(cx: &mut TrapContext, cause: TrapCause) -> (r: TrapAction)
    requires
        cause == TrapCause::UserEnvCall ==> old(cx).sepc + 4 <= usize::MAX,
    ensures
        r == user_action(*old(cx), cause),
        final(cx).sepc == if cause == TrapCause::UserEnvCall {
            old(cx).sepc + 4
        } else {
            old(cx).sepc as int
        },
        final(cx).x == old(cx).x,
        final(cx).sstatus == old(cx).sstatus,
        final(cx).kernel_satp == old(cx).kernel_satp,
        final(cx).kernel_sp == old(cx).kernel_sp,
        final(cx).trap_handler == old(cx).trap_handler,
{
    match cause {
        TrapCause::UserEnvCall => {
            cx.sepc = cx.sepc + 4;
            let id = cx.x[17];
            if id == super::syscall::SYSCALL_WRITE || id == super::syscall::SYSCALL_EXIT || id
                == super::syscall::SYSCALL_YIELD || id == super::syscall::SYSCALL_GET_TIME {
                TrapAction::Syscall(syscall(id, [cx.x[10], cx.x[11], cx.x[12]]))
            } else {
                TrapAction::UnsupportedSyscall(id)
            }
        },
        TrapCause::StoreFault | TrapCause::StorePageFault => TrapAction::AppPageFault,
        TrapCause::IllegalInstruction => TrapAction::AppIllegalInstruction,
        TrapCause::SupervisorTimer => TrapAction::Yield,
        TrapCause::Other => TrapAction::UnsupportedTrap,
    }
}

/// Handles a trap taken in the kernel; the saved state is left as it is.
pub fn trap_kernel_handler(cx: &mut TrapContext, cause: TrapCause) -> (r: TrapAction)
    ensures
        r == kernel_action(cause),
        *final(cx) == *old(cx),
{
    match cause {
        TrapCause::SupervisorTimer => TrapAction::KernelTimer,
        TrapCause::StoreFault | TrapCause::StorePageFault => TrapAction::KernelPageFault,
        _ => TrapAction::KernelUnknown,
    }
}

/// Handles a trap by where it came from: user mode when `from_user`, else the kernel.
pub fn trap_handler(cx: &mut TrapContext, from_user: bool, cause: TrapCause) -> (r: TrapAction)
    requires
        from_user && cause == TrapCause::UserEnvCall ==> old(cx).sepc + 4 <= usize::MAX,
    ensures
        r == if from_user {
            user_action(*old(cx), cause)
        } else {
            kernel_action(cause)
        },
        !from_user ==> *final(cx) == *old(cx),
        from_user ==> final(cx).x == old(cx).x,
        from_user ==> final(cx).sepc == if cause == TrapCause::UserEnvCall {
            old(cx).sepc + 4
        } else {
            old(cx).sepc as int
        },
{
    if from_user {
        trap_user_handler(cx, cause)
    } else {
        trap_kernel_handler(cx, cause)
    }
}

/// A system call from user mode names the call in `a7` (`x17`) and passes its
/// arguments in `a0`, `a1`, `a2` (`x10`..`x12`): `write` takes the descriptor,
/// buffer and length from them in that order, `exit` its exit code from `a0`,
/// and `yield` and `get_time` none; any other number is refused as such.
pub proof fn law_user_call_registers(cx: TrapContext)
    ensures
        cx.x@[17] == 64 ==> user_action(cx, TrapCause::UserEnvCall) == TrapAction::Syscall(
            Syscall::Write { fd: cx.x@[10], buf: cx.x@[11], len: cx.x@[12] },
        ),
        cx.x@[17] == 93 ==> user_action(cx, TrapCause::UserEnvCall) == TrapAction::Syscall(
            Syscall::Exit { exit_code: cx.x@[10] as i32 },
        ),
        cx.x@[17] == 124 ==> user_action(cx, TrapCause::UserEnvCall) == TrapAction::Syscall(Syscall::Yield),
        cx.x@[17] == 169 ==> user_action(cx, TrapCause::UserEnvCall) == TrapAction::Syscall(Syscall::GetTime),
        cx.x@[17] != 64 && cx.x@[17] != 93 && cx.x@[17] != 124 && cx.x@[17] != 169 ==> user_action(
            cx,
            TrapCause::UserEnvCall,
        ) == TrapAction::UnsupportedSyscall(cx.x@[17]),
{
}

} // verus!
