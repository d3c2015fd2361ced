//! Signals: the set of pending signals of a process, the actions that it set,
//! and the rules by which the kernel delivers them when a trap returns.
use crate::syscall::syserr;
use crate::trap::context::TrapContext;
use vstd::prelude::*;

verus! {

/// The highest signal number.
pub const MAX_SIG: usize = 31;

/// The single-bit set of signal `sig`.
pub open spec fn sig_bit(sig: int) -> u32 {
    (1u32 << (sig as u32)) as u32
}

/// A set of signals, one bit per signal number.
#[derive(Copy, Clone, Debug, PartialEq, Eq, Structural)]
pub struct SignalFlags {
    bits: u32,
}

impl View for SignalFlags {
    type V = u32;

    closed spec fn view(&self) -> u32 {
        self.bits
    }
}

impl SignalFlags {
    /// The empty set.
    pub fn empty() -> (r: Self)
        ensures
            r@ == 0,
    {
        SignalFlags { bits: 0 }
    }

    /// Every `u32` is a set of the 32 defined signals, so this never fails.
    pub fn from_bits(bits: u32) -> (r: Option<Self>)
        ensures
            r matches Some(f) && f@ == bits,
    {
        Some(SignalFlags { bits })
    }

    /// The raw bits.
    pub fn bits(&self) -> (r: u32)
        ensures
            r == self@,
    {
        self.bits
    }

    /// The set that holds signal `sig` only.
    pub fn single(sig: u32) -> (r: Self)
        requires
            sig < 32,
        ensures
            r@ == sig_bit(sig as int),
    {
        SignalFlags { bits: 1u32 << sig }
    }

    /// The default signal (number 0).
    pub fn SIGDEF() -> (r: Self)
        ensures
            r@ == 1,
    {
        SignalFlags { bits: 1 }
    }

    /// Interrupt (2).
    pub fn SIGINT() -> (r: Self)
        ensures
            r@ == 4,
    {
        SignalFlags { bits: 4 }
    }

    /// Illegal instruction (4).
    pub fn SIGILL() -> (r: Self)
        ensures
            r@ == 16,
    {
        SignalFlags { bits: 16 }
    }

    /// Abort (6).
    pub fn SIGABRT() -> (r: Self)
        ensures
            r@ == 64,
    {
        SignalFlags { bits: 64 }
    }

    /// Arithmetic error (8).
    pub fn SIGFPE() -> (r: Self)
        ensures
            r@ == 256,
    {
        SignalFlags { bits: 256 }
    }

    /// Kill (9).
    pub fn SIGKILL() -> (r: Self)
        ensures
            r@ == 512,
    {
        SignalFlags { bits: 512 }
    }

    /// Segmentation fault (11).
    pub fn SIGSEGV() -> (r: Self)
        ensures
            r@ == 2048,
    {
        SignalFlags { bits: 2048 }
    }

    /// Continue (18).
    pub fn SIGCONT() -> (r: Self)
        ensures
            r@ == 0x40000,
    {
        SignalFlags { bits: 0x40000 }
    }

    /// Stop (19).
    pub fn SIGSTOP() -> (r: Self)
        ensures
            r@ == 0x80000,
    {
        SignalFlags { bits: 0x80000 }
    }

    /// Whether every signal of `other` is in the set.
    pub fn contains(&self, other: Self) -> (r: bool)
        ensures
            r == (self@ & other@ == other@),
    {
        self.bits & other.bits == other.bits
    }

    /// Adds the signals of `other`.
    pub fn insert(&mut self, other: Self)
        ensures
            final(self)@ == old(self)@ | other@,
    {
        self.bits = self.bits | other.bits;
    }

    /// Flips the signals of `other`.
    pub fn toggle(&mut self, other: Self)
        ensures
            final(self)@ == old(self)@ ^ other@,
    {
        self.bits = self.bits ^ other.bits;
    }

    /// The exit code and message of the first fatal signal in the set, in
    /// the order SIGINT, SIGILL, SIGABRT, SIGFPE, SIGKILL, SIGSEGV.
    pub fn check_error(&self) -> (r: Option<(i32, &'static str)>)
        ensures
            r matches Some((code, _)) ==> code == fatal_code(self@),
            r is None <==> fatal_code(self@) == 0,
    {
        if self.contains(SignalFlags::SIGINT()) {
            Some((-2, "Killed, SIGINT=2"))
        } else if self.contains(SignalFlags::SIGILL()) {
            Some((-4, "Illegal Instruction, SIGILL=4"))
        } else if self.contains(SignalFlags::SIGABRT()) {
            Some((-6, "Aborted, SIGABRT=6"))
        } else if self.contains(SignalFlags::SIGFPE()) {
            Some((-8, "Erroneous Arithmetic Operation, SIGFPE=8"))
        } else if self.contains(SignalFlags::SIGKILL()) {
            Some((-9, "Killed, SIGKILL=9"))
        } else if self.contains(SignalFlags::SIGSEGV()) {
            Some((-11, "Segmentation Fault, SIGSEGV=11"))
        } else {
            None
        }
    }
}

/// The exit code of the first fatal signal of `bits`, 0 when none is set.
pub open spec fn fatal_code(bits: u32) -> i32 {
    if bits & 4 == 4 {
        -2i32
    } else if bits & 16 == 16 {
        -4i32
    } else if bits & 64 == 64 {
        -6i32
    } else if bits & 256 == 256 {
        -8i32
    } else if bits & 512 == 512 {
        -9i32
    } else if bits & 2048 == 2048 {
        -11i32
    } else {
        0i32
    }
}

/// What a process does on a signal: the address of its handler (0 for the
/// default) and the signals blocked while it runs.
#[derive(Copy, Clone)]
pub struct SignalAction {
    pub handler: u64,
    pub mask: SignalFlags,
}

impl SignalAction {
    /// No handler, nothing blocked.
    pub fn default_action() -> (r: Self)
        ensures
            r.handler == 0,
            r.mask@ == 0,
    {
        SignalAction { handler: 0, mask: SignalFlags::empty() }
    }
}

/// The signal state of a process as values.
pub struct SignalModel {
    pub pending: u32,
    pub mask: u32,
    pub actions: Seq<SignalAction>,
    pub handling_sig: isize,
    pub killed: bool,
    pub frozen: bool,
    pub backup: Option<TrapContext>,
}

impl SignalModel {
    /// One action per signal number, and the signal in handling, if any, is
    /// a signal number.
    pub open spec fn wf(self) -> bool {
        &&& self.actions.len() == MAX_SIG + 1
        &&& (self.handling_sig == -1 || 0 <= self.handling_sig <= MAX_SIG)
    }

    /// Signal `bit` is blocked by the handler that runs.
    pub open spec fn blocked_by_handler(self, bit: u32) -> bool {
        self.handling_sig != -1 && self.actions[self.handling_sig as int].mask@ & bit == bit
    }
}

/// A signal that the kernel handles itself.
pub open spec fn is_kernel_signal(bit: u32) -> bool {
    bit == 512 || bit == 0x80000 || bit == 0x40000 || bit == 1
}

/// The kernel's own handling of SIGSTOP, SIGCONT, SIGKILL and SIGDEF.
pub open spec fn kernel_signal_effect(s: SignalModel, bit: u32) -> SignalModel {
    if bit == 0x80000 {
        SignalModel { frozen: true, pending: s.pending ^ 0x80000u32, ..s }
    } else if bit == 0x40000 {
        if s.pending & 0x40000 == 0x40000 {
            SignalModel { frozen: false, pending: s.pending ^ 0x40000u32, ..s }
        } else {
            s
        }
    } else {
        SignalModel { killed: true, ..s }
    }
}

/// Delivery of user signal `sig`: with a handler set, the handler is entered
/// with the signal number as its argument and the interrupted context kept
/// aside; without one, nothing happens.
pub open spec fn user_signal_effect(s: SignalModel, ctx: TrapContext, sig: int) -> (SignalModel, TrapContext) {
    let handler = s.actions[sig].handler;
    if handler != 0 {
        (
            SignalModel {
                handling_sig: sig as isize,
                pending: s.pending ^ sig_bit(sig),
                backup: Some(ctx),
                ..s
            },
            TrapContext { sepc: handler, x: vstd::array::spec_array_update(ctx.x, 10, sig as u64), ..ctx },
        )
    } else {
        (s, ctx)
    }
}

/// Looking at signal `sig`: a pending signal that neither the process mask
/// nor the running handler blocks is delivered. Delivering a user signal ends
/// the pass (the third component).
pub open spec fn signal_step(s: SignalModel, ctx: TrapContext, sig: int) -> (SignalModel, TrapContext, bool) {
    let bit = sig_bit(sig);
    if s.pending & bit == bit && s.mask & bit != bit && !s.blocked_by_handler(bit) {
        if is_kernel_signal(bit) {
            (kernel_signal_effect(s, bit), ctx, false)
        } else {
            let (s2, c2) = user_signal_effect(s, ctx, sig);
            (s2, c2, true)
        }
    } else {
        (s, ctx, false)
    }
}

/// One pass over the signals `sig..31` in increasing order.
pub open spec fn signal_pass(s: SignalModel, ctx: TrapContext, sig: int) -> (SignalModel, TrapContext)
    decreases MAX_SIG - sig,
{
    if sig >= MAX_SIG as int || sig < 0 {
        (s, ctx)
    } else {
        let (s2, c2, stop) = signal_step(s, ctx, sig);
        if stop {
            (s2, c2)
        } else {
            signal_pass(s2, c2, sig + 1)
        }
    }
}

/// The signal table of a process: one action per signal number.
pub struct SignalActions {
    pub table: Vec<SignalAction>,
}

impl SignalActions {
    /// Default actions for every signal.
    pub fn default_actions() -> (r: Self)
        ensures
            r.table@.len() == MAX_SIG + 1,
            forall|i: int| 0 <= i < r.table@.len() ==> (#[trigger] r.table@[i]).handler == 0,
    {
        let mut table: Vec<SignalAction> = Vec::new();
        let mut i: usize = 0;
        while i <= MAX_SIG
            invariant
                i <= MAX_SIG + 1,
                table@.len() == i,
                forall|k: int| 0 <= k < table@.len() ==> (#[trigger] table@[k]).handler == 0,
            decreases MAX_SIG + 1 - i,
        {
            table.push(SignalAction::default_action());
            i = i + 1;
        }
        SignalActions { table }
    }
}

/// The signal part of a process: pending signals, the mask set by the
/// process, its actions, the signal whose handler runs (-1 for none),
/// whether it was killed or stopped, and the context kept aside while a
/// handler runs.
pub struct SignalState {
    pub pending_signals: SignalFlags,
    pub signal_mask: SignalFlags,
    pub signal_actions: SignalActions,
    pub handling_sig: isize,
    pub killed: bool,
    pub frozen: bool,
    pub trap_ctx_backup: Option<TrapContext>,
}

impl SignalState {
    /// The state as values.
    pub open spec fn model(&self) -> SignalModel {
        SignalModel {
            pending: self.pending_signals@,
            mask: self.signal_mask@,
            actions: self.signal_actions.table@,
            handling_sig: self.handling_sig,
            killed: self.killed,
            frozen: self.frozen,
            backup: self.trap_ctx_backup,
        }
    }

    /// A process that has no signal yet.
    pub fn new() -> (r: Self)
        ensures
            r.model().wf(),
            r.model().pending == 0,
            r.model().mask == 0,
            r.model().handling_sig == -1,
            !r.model().killed,
            !r.model().frozen,
            r.model().backup is None,
    {
        SignalState {
            pending_signals: SignalFlags::empty(),
            signal_mask: SignalFlags::empty(),
            signal_actions: SignalActions::default_actions(),
            handling_sig: -1,
            killed: false,
            frozen: false,
            trap_ctx_backup: None,
        }
    }

    /// The state of a child made by fork: nothing pending and no handler
    /// running, the mask and actions of the parent.
    pub fn fork_from(parent: &SignalState) -> (r: Self)
        requires
            parent.model().wf(),
        ensures
            r.model() == (SignalModel {
                pending: 0,
                mask: parent.model().mask,
                actions: parent.model().actions,
                handling_sig: -1isize,
                killed: false,
                frozen: false,
                backup: None,
            }),
            r.model().wf(),
    {
        let mut table: Vec<SignalAction> = Vec::new();
        let mut i: usize = 0;
        while i < parent.signal_actions.table.len()
            invariant
                i <= parent.signal_actions.table@.len(),
                table@ == parent.signal_actions.table@.take(i as int),
            decreases parent.signal_actions.table@.len() - i,
        {
            table.push(parent.signal_actions.table[i]);
            proof {
                assert(parent.signal_actions.table@.take(i as int + 1) =~= parent.signal_actions.table@.take(i as int).push(
                    parent.signal_actions.table@[i as int],
                ));
            }
            i = i + 1;
        }
        assert(table@ =~= parent.signal_actions.table@);
        SignalState {
            pending_signals: SignalFlags::empty(),
            signal_mask: parent.signal_mask,
            signal_actions: SignalActions { table },
            handling_sig: -1,
            killed: false,
            frozen: false,
            trap_ctx_backup: None,
        }
    }
}

/// Delivers the pending signals that are not blocked, in increasing order of
/// signal number (0 to 30): the kernel handles SIGSTOP, SIGCONT, SIGKILL and
/// SIGDEF itself and goes on; the first user signal ends the pass.
pub fn handle_pending_signals(st: &mut SignalState, ctx: &mut TrapContext)
    requires
        old(st).model().wf(),
    ensures
        final(st).model().wf(),
        (final(st).model(), *final(ctx)) == signal_pass(old(st).model(), *old(ctx), 0),
{
    let mut sig: usize = 0;
    while sig < MAX_SIG
        invariant
            sig <= MAX_SIG,
            st.model().wf(),
            signal_pass(st.model(), *ctx, sig as int) == signal_pass(old(st).model(), *old(ctx), 0),
        decreases MAX_SIG - sig,
    {
        let signal = SignalFlags::single(sig as u32);
        let bit = signal.bits();
        if st.pending_signals.contains(signal) && !st.signal_mask.contains(signal) {
            let masked = if st.handling_sig == -1 {
                false
            } else {
                let h = st.handling_sig as usize;
                st.signal_actions.table[h].mask.contains(signal)
            };
            if !masked {
                if bit == 512 || bit == 0x80000 || bit == 0x40000 || bit == 1 {
                    kernel_signal_handler(st, signal);
                } else {
                    user_signal_handler(st, ctx, sig);
                    return;
                }
            }
        }
        sig = sig + 1;
    }
}

/// The kernel's handling of a kernel signal.
fn kernel_signal_handler(st: &mut SignalState, signal: SignalFlags)
    requires
        old(st).model().wf(),
        is_kernel_signal(signal@),
    ensures
        final(st).model() == kernel_signal_effect(old(st).model(), signal@),
        final(st).model().wf(),
{
    let bit = signal.bits();
    if bit == 0x80000 {
        st.frozen = true;
        st.pending_signals.toggle(SignalFlags::SIGSTOP());
    } else if bit == 0x40000 {
        if st.pending_signals.contains(SignalFlags::SIGCONT()) {
            st.pending_signals.toggle(SignalFlags::SIGCONT());
            st.frozen = false;
        }
    } else {
        st.killed = true;
    }
}

/// Enters the handler of user signal `sig`, if the process set one.
fn user_signal_handler(st: &mut SignalState, ctx: &mut TrapContext, sig: usize)
    requires
        old(st).model().wf(),
        sig < MAX_SIG,
    ensures
        (final(st).model(), *final(ctx)) == user_signal_effect(old(st).model(), *old(ctx), sig as int),
        final(st).model().wf(),
{
    let handler = st.signal_actions.table[sig].handler;
    if handler != 0 {
        st.handling_sig = sig as isize;
        st.pending_signals.toggle(SignalFlags::single(sig as u32));
        st.trap_ctx_backup = Some(*ctx);
        ctx.sepc = handler;
        ctx.x[10] = sig as u64;
    }
}

/// Delivers pending signals; returns whether the task must yield and come
/// back to this step, which is so while it is stopped and not killed.
pub fn handle_signals(st: &mut SignalState, ctx: &mut TrapContext) -> (must_wait: bool)
    requires
        old(st).model().wf(),
    ensures
        final(st).model().wf(),
        (final(st).model(), *final(ctx)) == signal_pass(old(st).model(), *old(ctx), 0),
        must_wait == (final(st).model().frozen && !final(st).model().killed),
{
    handle_pending_signals(st, ctx);
    st.frozen && !st.killed
}

/// The exit code and message of a fatal pending signal, if one is pending.
pub fn check_signals_error(st: &SignalState) -> (r: Option<(i32, &'static str)>)
    ensures
        r matches Some((code, _)) ==> code == fatal_code(st.model().pending),
        r is None <==> fatal_code(st.model().pending) == 0,
{
    st.pending_signals.check_error()
}

/// Marks `signal` pending.
pub fn add_signal(st: &mut SignalState, signal: SignalFlags)
    ensures
        final(st).model() == (SignalModel { pending: old(st).model().pending | signal@, ..old(st).model() }),
{
    st.pending_signals.insert(signal);
}

/// A signal action request is refused when either pointer is null or when
/// it is for SIGKILL or SIGSTOP, which only the kernel handles.
pub fn check_sigaction_error(signal: SignalFlags, action: u64, old_action: u64) -> (r: bool)
    ensures
        r == (action == 0 || old_action == 0 || signal@ == 512 || signal@ == 0x80000),
{
    action == 0 || old_action == 0 || signal.bits() == 512 || signal.bits() == 0x80000
}

/// Sets the action of `signal` to `new_action`, given the user addresses of
/// the new action and of the slot for the old one. On success it returns 0
/// and the action that the old-action slot receives; otherwise `EINVAL`.
pub fn sys_sigaction(
    st: &mut SignalState,
    signal: i32,
    action: u64,
    old_action: u64,
    new_action: SignalAction,
) -> (r: (isize, Option<SignalAction>))
    requires
        old(st).model().wf(),
    ensures
        final(st).model().wf(),
        !(0 <= signal <= MAX_SIG) ==> r == (syserr::EINVAL, None::<SignalAction>) && final(st).model() == old(st).model(),
        0 <= signal <= MAX_SIG && (action == 0 || old_action == 0 || signal == 9 || signal == 19) ==> r == (
        syserr::EINVAL, None::<SignalAction>) && final(st).model() == old(st).model(),
        0 <= signal <= MAX_SIG && !(action == 0 || old_action == 0 || signal == 9 || signal == 19) ==> r.0 == 0
            && r.1 == Some(old(st).model().actions[signal as int]) && final(st).model() == (SignalModel {
            actions: old(st).model().actions.update(signal as int, new_action),
            ..old(st).model()
        }),
{
    if signal < 0 || signal as usize > MAX_SIG {
        return (syserr::EINVAL, None);
    }
    let flag = SignalFlags::single(signal as u32);
    proof {
        let s = signal as u32;
        assert(s < 32 ==> ((1u32 << s) == 512u32 <==> s == 9)) by (bit_vector);
        assert(s < 32 ==> ((1u32 << s) == 0x80000u32 <==> s == 19)) by (bit_vector);
    }
    if check_sigaction_error(flag, action, old_action) {
        return (syserr::EINVAL, None);
    }
    let prev = st.signal_actions.table[signal as usize];
    st.signal_actions.table.set(signal as usize, new_action);
    (0, Some(prev))
}

/// Replaces the signal mask of the process; returns the old mask.
pub fn sys_sigprocmask(st: &mut SignalState, mask: u32) -> (r: isize)
    requires
        old(st).model().wf(),
    ensures
        r == old(st).model().mask as isize,
        final(st).model() == (SignalModel { mask: mask, ..old(st).model() }),
        final(st).model().wf(),
{
    let old_mask = st.signal_mask.bits();
    match SignalFlags::from_bits(mask) {
        Some(flag) => {
            st.signal_mask = flag;
            old_mask as isize
        },
        None => syserr::EINVAL,
    }
}

/// Sends signal number `signal` to a process: refused with `EINVAL` when
/// the signal is already pending, else it becomes pending.
pub fn kill_signal(st: &mut SignalState, signal: i32) -> (r: isize)
    requires
        0 <= signal < 32,
    ensures
        old(st).model().pending & sig_bit(signal as int) == sig_bit(signal as int) ==> r == syserr::EINVAL
            && final(st).model() == old(st).model(),
        old(st).model().pending & sig_bit(signal as int) != sig_bit(signal as int) ==> r == 0
            && final(st).model() == (SignalModel {
            pending: old(st).model().pending | sig_bit(signal as int),
            ..old(st).model()
        }),
{
    let flag = SignalFlags::single(signal as u32);
    if st.pending_signals.contains(flag) {
        return syserr::EINVAL;
    }
    st.pending_signals.insert(flag);
    0
}

/// Returns from a signal handler: no handler runs any more and the context
/// kept aside is restored; the result is the restored register a0. There
/// must be a context kept aside.
pub fn sys_sigreturn(st: &mut SignalState, ctx: &mut TrapContext) -> (r: isize)
    requires
        old(st).model().wf(),
        old(st).model().backup is Some,
    ensures
        final(st).model() == (SignalModel { handling_sig: -1isize, ..old(st).model() }),
        final(st).model().wf(),
        *final(ctx) == old(st).model().backup->0,
        r == old(st).model().backup->0.x@[10] as isize,
{
    st.handling_sig = -1;
    match st.trap_ctx_backup {
        Some(b) => {
            *ctx = b;
        },
        None => {},
    }
    ctx.x[10] as isize
}

/// A user handler returns to the code it interrupted: when signal `sig`,
/// for which a handler is set, is delivered in context `ctx`, the context
/// kept aside is `ctx`, so that `sys_sigreturn` (which restores the kept
/// context and ends the handler) brings back `ctx` exactly, with the signal
/// no longer pending and no handler running.
pub proof fn lemma_handler_returns(s: SignalModel, ctx: TrapContext, sig: int)
    requires
        s.wf(),
        0 <= sig <= MAX_SIG,
        s.actions[sig].handler != 0,
        s.pending & sig_bit(sig) == sig_bit(sig),
    ensures
        ({
            let (s2, c2) = user_signal_effect(s, ctx, sig);
            &&& c2.sepc == s.actions[sig].handler
            &&& c2.x@[10] == sig as u64
            &&& s2.backup == Some(ctx)
            &&& (SignalModel { handling_sig: -1isize, ..s2 }).pending & sig_bit(sig) == 0
        }),
{
    let b = sig_bit(sig);
    let p = s.pending;
    assert(p & b == b ==> (p ^ b) & b == 0) by (bit_vector);
}

/// Flipping one signal's bit leaves every other signal's bit alone.
proof fn lemma_other_bit(p: u32, k: u32, j: u32)
    by (bit_vector)
    requires
        k < 32,
        j < 32,
        k != j,
    ensures
        (p ^ ((1u32 << k) as u32)) & ((1u32 << j) as u32) == p & ((1u32 << j) as u32),
{
}

/// While a handler runs, the signals in the mask of its action wait: when
/// every signal that is pending and not masked by the process is in the
/// mask of the action of the signal being handled, a pass delivers nothing
/// and changes neither the signal state nor the trap context.
pub proof fn lemma_blocked_signals_wait(s: SignalModel, ctx: TrapContext)
    requires
        s.wf(),
        s.handling_sig != -1,
        forall|sig: int|
            0 <= sig < MAX_SIG && s.pending & #[trigger] sig_bit(sig) == sig_bit(sig) && s.mask & sig_bit(sig) != sig_bit(
                sig,
            ) ==> s.actions[s.handling_sig as int].mask@ & sig_bit(sig) == sig_bit(sig),
    ensures
        signal_pass(s, ctx, 0) == (s, ctx),
{
    lemma_blocked_from(s, ctx, 0);
}

proof fn lemma_blocked_from(s: SignalModel, ctx: TrapContext, k: int)
    requires
        s.wf(),
        s.handling_sig != -1,
        0 <= k <= MAX_SIG,
        forall|sig: int|
            0 <= sig < MAX_SIG && s.pending & #[trigger] sig_bit(sig) == sig_bit(sig) && s.mask & sig_bit(sig) != sig_bit(
                sig,
            ) ==> s.actions[s.handling_sig as int].mask@ & sig_bit(sig) == sig_bit(sig),
    ensures
        signal_pass(s, ctx, k) == (s, ctx),
    decreases MAX_SIG - k,
{
    if k < MAX_SIG {
        let bit = sig_bit(k);
        assert(signal_step(s, ctx, k) == (s, ctx, false));
        lemma_blocked_from(s, ctx, k + 1);
    }
}

/// A pass only ever enters the handler of a signal that may be delivered:
/// when it changes the trap context, it has entered, with the signal number
/// as argument, the handler (one that is set) of a signal `j` that was
/// pending, not masked by the process and not in the mask of the action of
/// the signal whose handler was running, and `j` is now the signal being
/// handled; signals are looked at in increasing order, so no user signal
/// below `j` could have been delivered to a handler.
pub proof fn lemma_pass_delivers_only_unblocked(s: SignalModel, ctx: TrapContext)
    requires
        s.wf(),
    ensures
        ({
            let (s2, c2) = signal_pass(s, ctx, 0);
            let j = s2.handling_sig as int;
            c2 == ctx || {
                &&& 0 <= j < MAX_SIG
                &&& s.pending & sig_bit(j) == sig_bit(j)
                &&& s.mask & sig_bit(j) != sig_bit(j)
                &&& !(s.handling_sig != -1 && s.actions[s.handling_sig as int].mask@ & sig_bit(j) == sig_bit(j))
                &&& s.actions[j].handler != 0
                &&& c2.sepc == s.actions[j].handler
                &&& c2.x@[10] == j as u64
                &&& forall|i: int|
                    0 <= i < j && !is_kernel_signal(#[trigger] sig_bit(i)) && s.pending & sig_bit(i) == sig_bit(i) && s.mask
                        & sig_bit(i) != sig_bit(i) && !(s.handling_sig != -1 && s.actions[s.handling_sig as int].mask@ & sig_bit(i)
                        == sig_bit(i)) ==> s.actions[i].handler == 0
            }
        }),
{
    lemma_delivers_from(s, ctx, 0);
}

proof fn lemma_delivers_from(s: SignalModel, ctx: TrapContext, k: int)
    requires
        s.wf(),
        0 <= k <= MAX_SIG,
    ensures
        ({
            let (s2, c2) = signal_pass(s, ctx, k);
            let j = s2.handling_sig as int;
            c2 == ctx || {
                &&& k <= j < MAX_SIG
                &&& s.pending & sig_bit(j) == sig_bit(j)
                &&& s.mask & sig_bit(j) != sig_bit(j)
                &&& !(s.handling_sig != -1 && s.actions[s.handling_sig as int].mask@ & sig_bit(j) == sig_bit(j))
                &&& s.actions[j].handler != 0
                &&& c2.sepc == s.actions[j].handler
                &&& c2.x@[10] == j as u64
                &&& forall|i: int|
                    k <= i < j && !is_kernel_signal(#[trigger] sig_bit(i)) && s.pending & sig_bit(i) == sig_bit(i) && s.mask
                        & sig_bit(i) != sig_bit(i) && !(s.handling_sig != -1 && s.actions[s.handling_sig as int].mask@ & sig_bit(i)
                        == sig_bit(i)) ==> s.actions[i].handler == 0
            }
        }),
    decreases MAX_SIG - k,
{
    if k < MAX_SIG {
        let bit = sig_bit(k);
        if s.pending & bit == bit && s.mask & bit != bit && !s.blocked_by_handler(bit) {
            if is_kernel_signal(bit) {
                let t = kernel_signal_effect(s, bit);
                assert(signal_step(s, ctx, k) == (t, ctx, false));
                lemma_delivers_from(t, ctx, k + 1);
                let (s2, c2) = signal_pass(t, ctx, k + 1);
                let j = s2.handling_sig as int;
                if c2 != ctx {
                    lemma_other_bit(s.pending, k as u32, j as u32);
                    assert(t.pending == s.pending || t.pending == s.pending ^ bit);
                    assert forall|i: int|
                        k <= i < j && !is_kernel_signal(#[trigger] sig_bit(i)) && s.pending & sig_bit(i) == sig_bit(i)
                            && s.mask & sig_bit(i) != sig_bit(i) && !(s.handling_sig != -1
                            && s.actions[s.handling_sig as int].mask@ & sig_bit(i) == sig_bit(i)) implies s.actions[i].handler
                        == 0 by {
                        assert(i != k);
                        lemma_other_bit(s.pending, k as u32, i as u32);
                    }
                }
            } else {
                let (s2, c2) = user_signal_effect(s, ctx, k);
                assert(signal_pass(s, ctx, k) == (s2, c2));
                if s.actions[k].handler != 0 {
                    assert(c2.x@[10] == k as u64);
                }
            }
        } else {
            assert(signal_step(s, ctx, k) == (s, ctx, false));
            lemma_delivers_from(s, ctx, k + 1);
        }
    }
}

/// The signals that end a process: SIGINT, SIGILL, SIGABRT, SIGFPE, SIGKILL
/// and SIGSEGV.
pub open spec fn is_fatal_signal(n: int) -> bool {
    n == 2 || n == 4 || n == 6 || n == 8 || n == 9 || n == 11
}

/// A process ended by a fatal signal exits with minus the signal's number:
/// for any set of signals, when fatal signal `n` is in it and no fatal
/// signal with a smaller number is, the exit code is `-n`; a set with no
/// fatal signal gives no code (0).
pub proof fn lemma_fatal_code_is_minus_signal(bits: u32, n: int)
    ensures
        is_fatal_signal(n) && bits & sig_bit(n) == sig_bit(n) && (forall|m: int|
            is_fatal_signal(m) && m < n ==> bits & #[trigger] sig_bit(m) != sig_bit(m)) ==> fatal_code(bits) == -n,
        (forall|m: int| is_fatal_signal(m) ==> bits & #[trigger] sig_bit(m) != sig_bit(m)) ==> fatal_code(bits) == 0,
{
    assert(sig_bit(2) == 4 && sig_bit(4) == 16 && sig_bit(6) == 64 && sig_bit(8) == 256 && sig_bit(9) == 512 && sig_bit(11)
        == 2048) by {
        assert((1u32 << 2u32) == 4u32 && (1u32 << 4u32) == 16u32 && (1u32 << 6u32) == 64u32 && (1u32 << 8u32) == 256u32
            && (1u32 << 9u32) == 512u32 && (1u32 << 11u32) == 2048u32) by (bit_vector);
    }
}

/// The kernel handles four signals itself, SIGDEF (0), SIGKILL (9),
/// SIGCONT (18) and SIGSTOP (19), and no other: SIGSTOP freezes the process
/// and clears its pending bit, a pending SIGCONT thaws it and clears its
/// bit, and SIGKILL and SIGDEF kill it; none of them touches the mask, the
/// actions or the handler that runs.
pub proof fn lemma_kernel_signals(s: SignalModel, n: u32)
    requires
        n < 32,
    ensures
        is_kernel_signal(sig_bit(n as int)) == (n == 0 || n == 9 || n == 18 || n == 19),
        kernel_signal_effect(s, sig_bit(19)).frozen,
        s.pending & sig_bit(19) == sig_bit(19) ==> kernel_signal_effect(s, sig_bit(19)).pending & sig_bit(19) == 0,
        s.pending & sig_bit(18) == sig_bit(18) ==> !kernel_signal_effect(s, sig_bit(18)).frozen
            && kernel_signal_effect(s, sig_bit(18)).pending & sig_bit(18) == 0,
        kernel_signal_effect(s, sig_bit(9)).killed,
        kernel_signal_effect(s, sig_bit(0)).killed,
        is_kernel_signal(sig_bit(n as int)) ==> ({
            let t = kernel_signal_effect(s, sig_bit(n as int));
            t.mask == s.mask && t.actions == s.actions && t.handling_sig == s.handling_sig && t.backup == s.backup
        }),
{
    let b = sig_bit(n as int);
    assert(b == (1u32 << n) as u32);
    assert(((b == 512u32 || b == 0x80000u32 || b == 0x40000u32 || b == 1u32) == (n == 0 || n == 9 || n == 18 || n == 19)))
        by (bit_vector)
        requires
            n < 32,
            b == (1u32 << n) as u32,
    ;
    assert(sig_bit(19) == 0x80000u32 && sig_bit(18) == 0x40000u32 && sig_bit(9) == 512u32 && sig_bit(0) == 1u32) by {
        assert((1u32 << 19u32) == 0x80000u32 && (1u32 << 18u32) == 0x40000u32 && (1u32 << 9u32) == 512u32 && (1u32 << 0u32)
            == 1u32) by (bit_vector);
    }
    let p = s.pending;
    assert(p & 0x80000u32 == 0x80000u32 ==> (p ^ 0x80000u32) & 0x80000u32 == 0) by (bit_vector);
    assert(p & 0x40000u32 == 0x40000u32 ==> (p ^ 0x40000u32) & 0x40000u32 == 0) by (bit_vector);
}

} // verus!
