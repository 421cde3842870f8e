//! Delivering pending signals to a process: the kernel handles stop, continue,
//! kill and the default signal itself; for any other signal the process's
//! handler, if it set one, runs on its main thread.
use super::super::trap::context::TrapContext;
use super::action::SignalActions;
use super::signal::{SignalFlags, MAX_SIG, SIGKILL, SIGSTOP};
use vstd::prelude::*;

verus! {

/// The bit of signal `SIGCONT`.
pub const SIGCONT: u32 = 0x40000;

/// The bit of the default signal.
pub const SIGDEF: u32 = 0x1;

/// The signal state of a process.
#[derive(Clone, Copy)]
pub struct ProcessSignals {
    /// Signals received and not handled yet.
    pub signals: SignalFlags,
    /// Signals the process does not want delivered.
    pub signal_mask: SignalFlags,
    /// The signal whose handler is running, or -1.
    pub handling_sig: isize,
    /// The handler of each signal.
    pub signal_actions: SignalActions,
    /// The process is to be killed.
    pub killed: bool,
    /// The process is stopped.
    pub frozen: bool,
    /// The main thread's context from before the running handler started.
    pub trap_ctx_backup: Option<TrapContext>,
}

/// The bit of signal number `sig`.
pub open spec fn sig_bit(sig: int) -> u32 {
    1u32 << (sig as u32)
}

impl ProcessSignals {
    /// The running handler, if any, is one of a signal number.
    pub open spec fn wf(&self) -> bool {
        self.handling_sig == -1 || 0 <= self.handling_sig <= MAX_SIG
    }
}

/// Signal `sig` is pending, not masked by the process, and not masked by the
/// handler running, if any.
pub open spec fn deliverable(p: ProcessSignals, sig: int) -> bool {
    let bit = sig_bit(sig);
    &&& p.signals.bits & bit == bit
    &&& p.signal_mask.bits & bit != bit
    &&& (p.handling_sig == -1 || p.signal_actions.table@[p.handling_sig as int].mask.bits & bit != bit)
}

/// The kernel handles this signal itself.
pub open spec fn is_kernel_signal(bit: u32) -> bool {
    bit == SIGKILL || bit == SIGSTOP || bit == SIGCONT || bit == SIGDEF
}

/// The process after the kernel handled signal `bit`: a stop freezes it and
/// is consumed; a continue, if pending, thaws it and is consumed; anything
/// else kills it.
pub open spec fn kernel_handled(p: ProcessSignals, bit: u32) -> ProcessSignals {
    if bit == SIGSTOP {
        ProcessSignals { frozen: true, signals: SignalFlags { bits: p.signals.bits ^ SIGSTOP }, ..p }
    } else if bit == SIGCONT {
        if p.signals.bits & SIGCONT == SIGCONT {
            ProcessSignals { frozen: false, signals: SignalFlags { bits: p.signals.bits ^ SIGCONT }, ..p }
        } else {
            p
        }
    } else {
        ProcessSignals { killed: true, ..p }
    }
}

/// Scanning signals from `sig` up: kernel signals that can be delivered are
/// handled in turn; the scan stops at the first other signal that can be
/// delivered. The process state at that point, and that signal if any.
pub open spec fn scan(p: ProcessSignals, sig: int) -> (ProcessSignals, Option<int>)
    decreases 32 - sig,
{
    if sig < 0 || sig > MAX_SIG {
        (p, None)
    } else if deliverable(p, sig) {
        if is_kernel_signal(sig_bit(sig)) {
            scan(kernel_handled(p, sig_bit(sig)), sig + 1)
        } else {
            (p, Some(sig))
        }
    } else {
        scan(p, sig + 1)
    }
}

/// What delivering signal `sig` to the user handler does: if the process set a
/// handler, the signal is consumed and marked running, the main thread's
/// context `cx` is saved and changed to enter the handler with the signal
/// number as argument; otherwise nothing changes.
pub open spec fn user_handled(
    p: ProcessSignals,
    cx: TrapContext,
    sig: int,
    p2: ProcessSignals,
    cx2: TrapContext,
) -> bool {
    let handler = p.signal_actions.table@[sig].handler;
    if handler != 0 {
        &&& p2 == ProcessSignals {
            handling_sig: sig as isize,
            signals: SignalFlags { bits: p.signals.bits ^ sig_bit(sig) },
            trap_ctx_backup: Some(cx),
            ..p
        }
        &&& cx2.sepc == handler
        &&& cx2.x@ == cx.x@.update(10, sig as usize)
        &&& cx2.sstatus == cx.sstatus
        &&& cx2.kernel_satp == cx.kernel_satp
        &&& cx2.kernel_sp == cx.kernel_sp
        &&& cx2.trap_handler == cx.trap_handler
    } else {
        p2 == p && cx2 == cx
    }
}

/// Adds `signal` to the pending signals of the process.
pub fn current_add_signal(p: &mut ProcessSignals, signal: SignalFlags)
    ensures
        *final(p) == (ProcessSignals { signals: SignalFlags { bits: old(p).signals.bits | signal.bits }, ..*old(p) }),
{
    p.signals.insert(signal);
}

/// The kernel handles `signal` itself (see [`kernel_handled`]).
pub fn call_kernel_signal_handler(p: &mut ProcessSignals, signal: SignalFlags)
    ensures
        *final(p) == kernel_handled(*old(p), signal.bits),
{
    if signal.bits == SIGSTOP {
        p.frozen = true;
        p.signals = SignalFlags { bits: p.signals.bits ^ SIGSTOP };
    } else if signal.bits == SIGCONT {
        if p.signals.contains(SignalFlags { bits: SIGCONT }) {
            p.signals = SignalFlags { bits: p.signals.bits ^ SIGCONT };
            p.frozen = false;
        }
    } else {
        p.killed = true;
    }
}

/// Delivers signal `sig`, of bit `signal`, to the handler the process set for
/// it, on the main thread whose context is `cx` (see [`user_handled`]).
pub fn call_user_signal_handler(p: &mut ProcessSignals, cx: &mut TrapContext, sig: usize, signal: SignalFlags)
    requires
        sig <= MAX_SIG,
        signal.bits == sig_bit(sig as int),
    ensures
        user_handled(*old(p), *old(cx), sig as int, *final(p), *final(cx)),
{
    let handler = p.signal_actions.table[sig].handler;
    if handler != 0 {
        p.handling_sig = sig as isize;
        p.signals = SignalFlags { bits: p.signals.bits ^ signal.bits };
        p.trap_ctx_backup = Some(*cx);
        cx.sepc = handler;
        cx.x[10] = sig;
    }
}

/// Delivers the pending signals that can be delivered, in order of signal
/// number: kernel signals are handled on the spot; the first other one goes
/// to the process's handler and ends the scan (see [`scan`]).
pub fn check_pending_signals(p: &mut ProcessSignals, cx: &mut TrapContext)
    requires
        old(p).wf(),
    ensures
        final(p).wf(),
        ({
            let (q, u) = scan(*old(p), 0);
            match u {
                None => *final(p) == q && *final(cx) == *old(cx),
                Some(s) => user_handled(q, *old(cx), s, *final(p), *final(cx)),
            }
        }),
{
    let mut sig: usize = 0;
    while sig < MAX_SIG + 1
        invariant
            p.wf(),
            sig <= MAX_SIG + 1,
            scan(*old(p), 0) == scan(*p, sig as int),
            *cx == *old(cx),
        decreases MAX_SIG + 1 - sig,
    {
        let bit: u32 = 1u32 << (sig as u32);
        let signal = match SignalFlags::from_bits(bit) {
            Some(s) => s,
            None => SignalFlags { bits: bit },
        };
        let ghost before = *p;
        if p.signals.contains(signal) && !p.signal_mask.contains(signal) {
            let mut masked = true;
            let handling_sig = p.handling_sig;
            if handling_sig == -1 {
                masked = false;
            } else {
                if !p.signal_actions.table[handling_sig as usize].mask.contains(signal) {
                    masked = false;
                }
            }
            if !masked {
                assert(deliverable(before, sig as int));
                if signal.bits == SIGKILL || signal.bits == SIGSTOP || signal.bits == SIGCONT || signal.bits
                    == SIGDEF {
                    call_kernel_signal_handler(p, signal);
                } else {
                    call_user_signal_handler(p, cx, sig, signal);
                    return;
                }
            } else {
                assert(!deliverable(before, sig as int));
            }
        } else {
            assert(!deliverable(before, sig as int));
        }
        sig += 1;
    }
}

/// One round of signal handling: delivers the pending signals, then says
/// whether the process must wait for a continue (it is stopped and not
/// killed) before it goes on.
pub fn handle_signals(p: &mut ProcessSignals, cx: &mut TrapContext) -> (wait: bool)
    requires
        old(p).wf(),
    ensures
        final(p).wf(),
        ({
            let (q, u) = scan(*old(p), 0);
            match u {
                None => *final(p) == q && *final(cx) == *old(cx),
                Some(s) => user_handled(q, *old(cx), s, *final(p), *final(cx)),
            }
        }),
        wait == (final(p).frozen && !final(p).killed),
{
    check_pending_signals(p, cx);
    p.frozen && !p.killed
}

/// Returns from a signal handler: no handler is running any more, and the main
/// thread's context is the one saved when the handler started, whose `x10`
/// (the result of the call the signal interrupted) is returned.
pub fn sys_sigreturn(p: &mut ProcessSignals, cx: &mut TrapContext) -> (r: isize)
    requires
        old(p).trap_ctx_backup is Some,
    ensures
        *final(p) == (ProcessSignals { handling_sig: -1isize, ..*old(p) }),
        *final(cx) == old(p).trap_ctx_backup.unwrap(),
        r == final(cx).x@[10] as isize,
{
    p.handling_sig = -1;
    match p.trap_ctx_backup {
        Some(saved) => {
            *cx = saved;
        },
        None => {},
    }
    cx.x[10] as isize
}

/// While a handler runs, a signal that the running handler's mask holds is
/// never the one handed to a user handler, whatever else is pending; and the
/// kernel signals handled meanwhile leave the running handler and the
/// handler table alone.
pub proof fn law_handler_mask_blocks(p: ProcessSignals, sig: int, k: int)
    requires
        0 <= p.handling_sig <= MAX_SIG,
        0 <= sig <= MAX_SIG,
        p.signal_actions.table@[p.handling_sig as int].mask.bits & sig_bit(sig) == sig_bit(sig),
    ensures
        scan(p, k).1 != Some(sig),
        scan(p, k).0.handling_sig == p.handling_sig,
        scan(p, k).0.signal_actions == p.signal_actions,
    decreases 32 - k,
{
    if k < 0 || k > MAX_SIG {
    } else if deliverable(p, k) {
        if is_kernel_signal(sig_bit(k)) {
            law_handler_mask_blocks(kernel_handled(p, sig_bit(k)), sig, k + 1);
        } else {
            assert(k != sig);
        }
    } else {
        law_handler_mask_blocks(p, sig, k + 1);
    }
}

/// While a handler runs and its mask holds every pending signal, delivering
/// signals does nothing: the signal state stays as it is and no user handler
/// is entered (so the trap context stays too).
pub proof fn law_all_masked_nothing_delivered(p: ProcessSignals, k: int)
    requires
        0 <= p.handling_sig <= MAX_SIG,
        forall|s: int|
            #![trigger sig_bit(s)]
            0 <= s <= MAX_SIG && p.signals.bits & sig_bit(s) == sig_bit(s) ==> p.signal_actions.table@[p.handling_sig as int].mask.bits
                & sig_bit(s) == sig_bit(s),
    ensures
        scan(p, k) == (p, Option::<int>::None),
    decreases 32 - k,
{
    if k < 0 || k > MAX_SIG {
    } else {
        assert(!deliverable(p, k)) by {
            if p.signals.bits & sig_bit(k) == sig_bit(k) {
                assert(p.signal_actions.table@[p.handling_sig as int].mask.bits & sig_bit(k) == sig_bit(k));
            }
        }
        law_all_masked_nothing_delivered(p, k + 1);
    }
}

} // verus!
