//! Kernel-side logic.
pub mod address;
pub mod batch;
pub mod config;
pub mod frame_allocator;
pub mod fs;
pub mod id;
pub mod loader;
pub mod memory_set;
pub mod page_table;
pub mod sync;
pub mod syscall;
pub mod task;
pub mod timer;
pub mod trap;
