//! Processes: identifiers, file descriptor tables, signals and scheduling.
pub mod exec;
pub mod fdtable;
pub mod pid;
pub mod processor;
pub mod scheduler;
pub mod signal;
pub mod stack;
pub mod table;
