//! The life cycle of a task.
use vstd::prelude::*;

verus! {

/// Where a task is in its life.
#[derive(PartialEq, Eq, Structural, Clone, Copy)]
pub enum TaskStatus {
    UnInit,
    Ready,
    Running,
    Exited,
    Zombie,
}

} // verus!
