//! Tasks (threads): their states, switch contexts, stacks and per-thread
//! user resources.
pub mod context;
pub mod stack;
pub mod tcb;
pub mod uresource;
