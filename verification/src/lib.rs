//! Verified core of a small RISC-V teaching kernel and its `easy-fs` file system.
//!
//! * [`easy_fs`]: the on-disk layout, block cache, bitmaps, disk inodes and the
//!   inode layer of the file system, over any [`easy_fs::BlockDevice`].
//! * [`kernel`]: allocators, pipes, timers, signal bookkeeping and the
//!   decision parts of the system calls.
//! * [`green_thread`]: the task table of a cooperative user-level runtime.
//! * [`shell`]: the line editing of the user shell.
pub mod easy_fs;
pub mod green_thread;
pub mod kernel;
pub mod shell;

