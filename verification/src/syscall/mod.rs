//! System calls: their results and the decisions behind them.
pub mod dispatch;
pub mod fs;
pub mod process;
pub mod syserr;
pub mod thread;
