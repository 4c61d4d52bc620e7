//! Definitions shared with user programs.
pub mod signal;
pub mod uname;
pub mod wait;
