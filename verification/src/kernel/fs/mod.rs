//! Files as processes see them: open flags and pipes.
pub mod inode;
pub mod pipe;
