//! Tasks: saved contexts, states and signal bookkeeping.
pub mod action;
pub mod context;
pub mod exec;
pub mod lifecycle;
pub mod manager;
pub mod process;
pub mod processor;
pub mod signal;
pub mod signal_handling;
pub mod task;
