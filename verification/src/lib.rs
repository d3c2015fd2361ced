//! KOS: the data structures and rules of a small RISC-V (SV39) kernel,
//! stated with contracts and proved with Verus.
#![allow(non_snake_case)]
#![allow(unused_imports)]

pub mod bits;
pub mod chardev;
pub mod clock;
pub mod config;
pub mod memory;
pub mod process;
pub mod sbi;
pub mod fs;
pub mod gpu;
pub mod loader;
pub mod logger;
pub mod sync;
pub mod syscall;
pub mod task;
pub mod trap;
pub mod util;

