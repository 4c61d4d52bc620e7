//! Processes: their file descriptor tables and what the system-call interface decides for them.
pub mod dents;
pub mod elf;
pub mod exec;
pub mod files;
pub mod signal;
pub mod syscall;
