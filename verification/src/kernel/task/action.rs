//! Signal handlers registered by a process.
use super::signal::{SignalFlags, MAX_SIG};
use vstd::prelude::*;

verus! {

/// A handler for a signal: the address of its code, and the signals masked
/// while it runs.
#[derive(Clone, Copy)]
pub struct SignalAction {
    pub handler: usize,
    pub mask: SignalFlags,
}

impl Default for SignalAction {
    /// No handler, with signals 3 and 5 masked.
    fn default() -> (r: Self)
        ensures
            r.handler == 0,
            r.mask.bits == 40,
    {
        let mask = match SignalFlags::from_bits(40) {
            Some(m) => m,
            None => SignalFlags { bits: 40 },
        };
        Self { handler: 0, mask }
    }
}

/// The handler of each signal number, `0..=MAX_SIG`.
#[derive(Clone, Copy)]
pub struct SignalActions {
    pub table: [SignalAction; 32],
}

impl Default for SignalActions {
    /// The default handler for every signal.
    fn default() -> (r: Self)
        ensures
            forall|i: int| 0 <= i <= MAX_SIG ==> #[trigger] r.table@[i].handler == 0 && r.table@[i].mask.bits == 40,
    {
        let d = SignalAction::default();
        Self { table: [d; 32] }
    }
}

} // verus!
