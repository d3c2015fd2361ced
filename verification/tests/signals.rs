use kos::process::signal::{
    add_signal, check_sigaction_error, check_signals_error, handle_pending_signals, handle_signals, kill_signal,
    sys_sigaction, sys_sigprocmask, sys_sigreturn, SignalAction, SignalFlags, SignalState,
};
use kos::syscall::syserr::EINVAL;
use kos::trap::context::TrapContext;

fn ctx() -> TrapContext {
    TrapContext::app_init_context(0x1000, 0x8000, 0, 0, 0, 0)
}

fn handler_at(addr: u64) -> SignalAction {
    SignalAction { handler: addr, mask: SignalFlags::empty() }
}

#[test]
fn signal_flag_values() {
    assert_eq!(SignalFlags::SIGDEF().bits(), 1);
    assert_eq!(SignalFlags::SIGINT().bits(), 1 << 2);
    assert_eq!(SignalFlags::SIGKILL().bits(), 1 << 9);
    assert_eq!(SignalFlags::SIGSEGV().bits(), 1 << 11);
    assert_eq!(SignalFlags::SIGCONT().bits(), 1 << 18);
    assert_eq!(SignalFlags::SIGSTOP().bits(), 1 << 19);
    assert_eq!(SignalFlags::single(10).bits(), 1 << 10);
    let mut f = SignalFlags::empty();
    f.insert(SignalFlags::SIGINT());
    assert!(f.contains(SignalFlags::SIGINT()));
    f.toggle(SignalFlags::SIGINT());
    assert_eq!(f.bits(), 0);
}

#[test]
fn fatal_signals_in_order() {
    let mut f = SignalFlags::SIGSEGV();
    f.insert(SignalFlags::SIGILL());
    assert_eq!(f.check_error(), Some((-4, "Illegal Instruction, SIGILL=4")));
    assert_eq!(SignalFlags::SIGSEGV().check_error(), Some((-11, "Segmentation Fault, SIGSEGV=11")));
    assert_eq!(SignalFlags::SIGKILL().check_error(), Some((-9, "Killed, SIGKILL=9")));
    assert_eq!(SignalFlags::single(10).check_error(), None);
    let mut st = SignalState::new();
    assert_eq!(check_signals_error(&st), None);
    add_signal(&mut st, SignalFlags::SIGINT());
    assert_eq!(check_signals_error(&st), Some((-2, "Killed, SIGINT=2")));
}

#[test]
fn user_handler_is_entered_with_the_signal_number() {
    let mut st = SignalState::new();
    assert_eq!(sys_sigaction(&mut st, 10, 0x100, 0x200, handler_at(0x4000)).0, 0);
    add_signal(&mut st, SignalFlags::single(10));
    let mut c = ctx();
    handle_pending_signals(&mut st, &mut c);
    assert_eq!(c.sepc, 0x4000);
    assert_eq!(c.x[10], 10);
    assert_eq!(st.handling_sig, 10);
    assert_eq!(st.pending_signals.bits(), 0);
    // returning from the handler restores the interrupted context
    let r = sys_sigreturn(&mut st, &mut c);
    assert_eq!(c.sepc, 0x1000);
    assert_eq!(r, 0);
    assert_eq!(st.handling_sig, -1);
}

#[test]
fn masked_signals_wait() {
    let mut st = SignalState::new();
    sys_sigaction(&mut st, 10, 0x100, 0x200, handler_at(0x4000));
    assert_eq!(sys_sigprocmask(&mut st, 1 << 10), 0);
    add_signal(&mut st, SignalFlags::single(10));
    let mut c = ctx();
    handle_pending_signals(&mut st, &mut c);
    assert_eq!(c.sepc, 0x1000);
    assert_eq!(st.pending_signals.bits(), 1 << 10);
    assert_eq!(sys_sigprocmask(&mut st, 0), 1 << 10);
    handle_pending_signals(&mut st, &mut c);
    assert_eq!(c.sepc, 0x4000);
}

#[test]
fn stop_and_continue() {
    let mut st = SignalState::new();
    let mut c = ctx();
    add_signal(&mut st, SignalFlags::SIGSTOP());
    assert!(handle_signals(&mut st, &mut c));
    assert!(st.frozen);
    add_signal(&mut st, SignalFlags::SIGCONT());
    assert!(!handle_signals(&mut st, &mut c));
    assert!(!st.frozen);
    add_signal(&mut st, SignalFlags::SIGKILL());
    assert!(!handle_signals(&mut st, &mut c));
    assert!(st.killed);
}

#[test]
fn sigaction_refusals() {
    let mut st = SignalState::new();
    assert_eq!(sys_sigaction(&mut st, 9, 0x100, 0x200, handler_at(1)).0, EINVAL);
    assert_eq!(sys_sigaction(&mut st, 19, 0x100, 0x200, handler_at(1)).0, EINVAL);
    assert_eq!(sys_sigaction(&mut st, 10, 0, 0x200, handler_at(1)).0, EINVAL);
    assert_eq!(sys_sigaction(&mut st, 40, 0x100, 0x200, handler_at(1)).0, EINVAL);
    assert!(check_sigaction_error(SignalFlags::SIGKILL(), 1, 1));
    assert!(!check_sigaction_error(SignalFlags::SIGINT(), 1, 1));
    // the previous action comes back
    sys_sigaction(&mut st, 10, 0x100, 0x200, handler_at(0x4000));
    let (r, prev) = sys_sigaction(&mut st, 10, 0x100, 0x200, handler_at(0x5000));
    assert_eq!(r, 0);
    assert_eq!(prev.map(|a| a.handler), Some(0x4000));
}

#[test]
fn kill_twice_is_refused() {
    let mut st = SignalState::new();
    assert_eq!(kill_signal(&mut st, 3), 0);
    assert_eq!(kill_signal(&mut st, 3), EINVAL);
    let child = SignalState::fork_from(&st);
    assert_eq!(child.pending_signals.bits(), 0);
}
