//! System calls: what each one decides, over the state it is given.
pub mod fs;
pub mod process;
pub mod thread;

use vstd::prelude::*;

verus! {

/// Call number of `write`.
pub const SYSCALL_WRITE: usize = 64;

/// Call number of `exit`.
pub const SYSCALL_EXIT: usize = 93;

/// Call number of `yield`.
pub const SYSCALL_YIELD: usize = 124;

/// Call number of `get_time`.
pub const SYSCALL_GET_TIME: usize = 169;

/// A decoded system call, with its arguments.
#[derive(PartialEq, Eq, Structural, Clone, Copy)]
pub enum Syscall {
    /// Write `len` bytes at user address `buf` to descriptor `fd`.
    Write { fd: usize, buf: usize, len: usize },
    /// End the calling task with this exit code.
    Exit { exit_code: i32 },
    /// Give up the processor.
    Yield,
    /// Read the time in milliseconds.
    GetTime,
}

/// Whether `syscall_id` is a call this kernel serves.
pub open spec fn supported(syscall_id: usize) -> bool {
    syscall_id == SYSCALL_WRITE || syscall_id == SYSCALL_EXIT || syscall_id == SYSCALL_YIELD
        || syscall_id == SYSCALL_GET_TIME
}

/// Decodes call `syscall_id` with arguments `args`; the call must be one this
/// kernel serves.
pub fn syscall(syscall_id: usize, args: [usize; 3]) -> (r: Syscall)
    requires
        supported(syscall_id),
    ensures
        syscall_id == SYSCALL_WRITE ==> r == (Syscall::Write { fd: args@[0], buf: args@[1], len: args@[2] }),
        syscall_id == SYSCALL_EXIT ==> r == (Syscall::Exit { exit_code: args@[0] as i32 }),
        syscall_id == SYSCALL_YIELD ==> r == Syscall::Yield,
        syscall_id == SYSCALL_GET_TIME ==> r == Syscall::GetTime,
{
    if syscall_id == SYSCALL_WRITE {
        Syscall::Write { fd: args[0], buf: args[1], len: args[2] }
    } else if syscall_id == SYSCALL_EXIT {
        Syscall::Exit { exit_code: args[0] as i32 }
    } else if syscall_id == SYSCALL_YIELD {
        Syscall::Yield
    } else {
        Syscall::GetTime
    }
}

} // verus!
