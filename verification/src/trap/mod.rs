//! Traps: the context saved when user code enters the kernel.
pub mod context;
pub mod handler;
pub mod plic;
