//! Physical and virtual memory: addresses, page tables, frames, segments.
pub mod address;
pub mod flags;
pub mod frame;
pub mod page_table;
pub mod kernel_view;
pub mod segment;
pub mod address_space;
pub mod elf;
