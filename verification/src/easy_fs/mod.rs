//! `easy-fs`: a tiny block-based file system with a flat root directory.
//!
//! Disk layout, block by block:
//! super block | inode bitmap | inode area | data bitmap | data area.
pub mod bitmap;
pub mod block_cache;
pub mod block_dev;
pub mod efs;
pub mod layout;
pub mod vfs;

pub use block_dev::{BlockDevice, BLOCK_SZ};
pub use efs::EasyFileSystem;
pub use vfs::Inode;
