//! Files: open files and their errors, pipes and user buffers.
pub mod file;
pub mod pipe;
pub mod pipes;
pub mod stdio;
pub mod userbuf;
