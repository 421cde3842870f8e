//! Signals: each one is a bit of a 32-bit set.
use vstd::prelude::*;

verus! {

/// Highest signal number.
pub const MAX_SIG: usize = 31;

/// The bit of signal `SIGKILL`.
pub const SIGKILL: u32 = 0x200;

/// The bit of signal `SIGSTOP`.
pub const SIGSTOP: u32 = 0x80000;

/// A set of signals: bit `n` stands for signal number `n`.
#[derive(PartialEq, Eq, Structural, Clone, Copy)]
pub struct SignalFlags {
    pub bits: u32,
}

impl SignalFlags {
    /// The set with no signal.
    pub open spec fn empty_set() -> SignalFlags {
        SignalFlags { bits: 0 }
    }

    /// The set with exactly the bits of `bits`; every bit names a signal.
    pub fn from_bits(bits: u32) -> (r: Option<Self>)
        ensures
            r == Some(SignalFlags { bits }),
    {
        Some(SignalFlags { bits })
    }

    /// The bits of the set.
    pub fn bits(&self) -> (r: u32)
        ensures
            r == self.bits,
    {
        self.bits
    }

    /// Whether every signal of `other` is in the set.
    pub fn contains(&self, other: SignalFlags) -> (r: bool)
        ensures
            r == (self.bits & other.bits == other.bits),
    {
        self.bits & other.bits == other.bits
    }

    /// Adds the signals of `other` to the set.
    pub fn insert(&mut self, other: SignalFlags)
        ensures
            final(self).bits == old(self).bits | other.bits,
    {
        self.bits = self.bits | other.bits;
    }
}

} // verus!
